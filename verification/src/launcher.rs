//! Projection of launch settings into the patched loader config, and the
//! pure decisions of the launch sequence: resolving the loader directory
//! and recognizing the loader process while waiting for it.
use vstd::prelude::*;

use crate::ini::IniManager;
use crate::ini::spec_split_lines;
use crate::ini::spec_join_lines;
use crate::ini::spec_upsert;
use crate::ini::spec_remove;
use crate::errors::LibError;
use crate::strutil::trim;
use crate::strutil::str_trim;
use crate::strutil::concat3;

verus! {

/// The text after one upsert applied to it.
pub open spec fn apply_set(c: Seq<char>, sec: Seq<char>, key: Seq<char>, v: Seq<char>) -> Seq<
    char,
> {
    spec_join_lines(spec_upsert(spec_split_lines(c), sec, key, v))
}

/// The text after one key removal applied to it: untouched when there is
/// nothing to delete.
pub open spec fn apply_remove(c: Seq<char>, sec: Seq<char>, key: Seq<char>) -> Seq<char> {
    if spec_remove(spec_split_lines(c), sec, key) == spec_split_lines(c) {
        c
    } else {
        spec_join_lines(spec_remove(spec_split_lines(c), sec, key))
    }
}

/// The launch-relevant part of a game's configuration, as plain values.
#[derive(Debug, Clone)]
pub struct LaunchSettings {
    pub target_exe_path: Option<String>,
    pub launcher_exe_path: Option<String>,
    pub launch_args: Option<String>,
    pub use_shell: bool,
    pub show_error_popup: bool,
    pub auto_set_analyse_options: bool,
    pub delay: Option<i32>,
    pub extra_dll: Option<String>,
    pub auto_exit_seconds: Option<i32>,
    pub use_upx: bool,
}

/// The decimal digit character for a value below ten.
pub open spec fn digit_char(n: int) -> char {
    ((48 + n) as u8) as char
}

/// The decimal digits of a nonnegative number.
pub open spec fn dec_digits(n: int) -> Seq<char>
    decreases n,
{
    if n < 10 {
        seq![digit_char(if n >= 0 {
            n
        } else {
            0
        })]
    } else {
        dec_digits(n / 10) + seq![digit_char(n % 10)]
    }
}

/// The decimal rendering of an integer, with a leading minus for negatives.
pub open spec fn dec_str(i: int) -> Seq<char> {
    if i < 0 {
        seq!['-'] + dec_digits(-i)
    } else {
        dec_digits(i)
    }
}

/// The decimal digits of a `u64`.
fn u64_dec(n: u64) -> (r: String)
    ensures
        r@ == dec_digits(n as int),
    decreases n,
{
    let digits = "0123456789";
    proof {
        reveal_strlit("0123456789");
    }
    if n < 10 {
        let d = (n % 10) as usize;
        let piece = digits.substring_char(d, d + 1);
        proof {
            assert(digits@[d as int] == digit_char(d as int)) by {
                assert(digits@.len() == 10);
                assert(digits@[0] == '0' && digits@[1] == '1' && digits@[2] == '2' && digits@[3]
                    == '3' && digits@[4] == '4' && digits@[5] == '5' && digits@[6] == '6'
                    && digits@[7] == '7' && digits@[8] == '8' && digits@[9] == '9');
            }
            assert(piece@ =~= seq![digit_char(n as int)]);
        }
        String::from_str(piece)
    } else {
        let mut r = u64_dec(n / 10);
        let d = (n % 10) as usize;
        let piece = digits.substring_char(d, d + 1);
        proof {
            assert(digits@[d as int] == digit_char(d as int)) by {
                assert(digits@.len() == 10);
                assert(digits@[0] == '0' && digits@[1] == '1' && digits@[2] == '2' && digits@[3]
                    == '3' && digits@[4] == '4' && digits@[5] == '5' && digits@[6] == '6'
                    && digits@[7] == '7' && digits@[8] == '8' && digits@[9] == '9');
            }
            assert(piece@ =~= seq![digit_char((n % 10) as int)]);
        }
        r.append(piece);
        r
    }
}

/// The decimal rendering of an `i32`.
pub fn i32_dec(i: i32) -> (r: String)
    ensures
        r@ == dec_str(i as int),
{
    if i < 0 {
        let mag = -(i as i64);
        let s = u64_dec(mag as u64);
        let r = concat3("-", s.as_str(), "");
        proof {
            reveal_strlit("-");
            reveal_strlit("");
            assert("-"@ =~= seq!['-']);
            assert(""@ =~= Seq::<char>::empty());
            assert(r@ =~= seq!['-'] + dec_digits(-(i as int)));
        }
        r
    } else {
        u64_dec(i as u64)
    }
}

/// The text after the whole launch projection: the loader target, the shell
/// or direct launch keys, warning popups, hunting options, delays and the
/// extra injected library, each upserted or removed as the settings say.
pub open spec fn spec_apply_launch(c0: Seq<char>, s: LaunchSettings) -> Seq<char> {
    let c1 = match s.target_exe_path {
        Some(t) => if t@.len() > 0 {
            apply_set(c0, "Loader"@, "target"@, t@)
        } else {
            c0
        },
        None => c0,
    };
    let c2 = if s.use_shell {
        apply_remove(apply_remove(c1, "Loader"@, "launch"@), "Loader"@, "launch_args"@)
    } else {
        let ca = match s.launcher_exe_path {
            Some(l) => if l@.len() > 0 {
                apply_set(c1, "Loader"@, "launch"@, l@)
            } else {
                apply_remove(c1, "Loader"@, "launch"@)
            },
            None => apply_remove(c1, "Loader"@, "launch"@),
        };
        match s.launch_args {
            Some(a) => if a@.len() > 0 {
                apply_set(ca, "Loader"@, "launch_args"@, a@)
            } else {
                apply_remove(ca, "Loader"@, "launch_args"@)
            },
            None => apply_remove(ca, "Loader"@, "launch_args"@),
        }
    };
    let c3 = apply_set(
        c2,
        "Logging"@,
        "show_warnings"@,
        if s.show_error_popup {
            "1"@
        } else {
            "0"@
        },
    );
    let c4 = if s.auto_set_analyse_options {
        apply_set(
            c3,
            "Hunting"@,
            "analyse_options"@,
            "deferred_ctx_immediate dump_rt dump_cb dump_vb dump_ib buf txt dds dump_tex dds"@,
        )
    } else {
        c3
    };
    let c5 = match s.delay {
        Some(d) => apply_set(c4, "System"@, "dll_initialization_delay"@, dec_str(d as int)),
        None => c4,
    };
    let c6 = apply_set(c5, "Hunting"@, "hunting"@, "2"@);
    let c7 = apply_set(c6, "Hunting"@, "marking_actions"@, "clipboard asm hlsl"@);
    let c8 = match s.auto_exit_seconds {
        Some(x) => apply_set(c7, "Loader"@, "delay"@, dec_str(x as int)),
        None => c7,
    };
    match s.extra_dll {
        Some(d) => if d@.len() > 0 {
            apply_set(c8, "Loader"@, "inject_dll"@, d@)
        } else {
            apply_remove(c8, "Loader"@, "inject_dll"@)
        },
        None => apply_remove(c8, "Loader"@, "inject_dll"@),
    }
}

/// Projects the launch settings into the loader config document.
#[verifier::rlimit(80)]
pub fn apply_launch_settings(ini: &mut IniManager, s: &LaunchSettings)
    ensures
        final(ini).path == old(ini).path,
        final(ini).content@ == spec_apply_launch(old(ini).content@, *s),
{
    match &s.target_exe_path {
        Some(t) => {
            if t.as_str().unicode_len() > 0 {
                ini.set("Loader", "target", t.as_str());
            }
        },
        None => {},
    }
    if s.use_shell {
        ini.remove_key("Loader", "launch");
        ini.remove_key("Loader", "launch_args");
    } else {
        match &s.launcher_exe_path {
            Some(l) => {
                if l.as_str().unicode_len() > 0 {
                    ini.set("Loader", "launch", l.as_str());
                } else {
                    ini.remove_key("Loader", "launch");
                }
            },
            None => {
                ini.remove_key("Loader", "launch");
            },
        }
        match &s.launch_args {
            Some(a) => {
                if a.as_str().unicode_len() > 0 {
                    ini.set("Loader", "launch_args", a.as_str());
                } else {
                    ini.remove_key("Loader", "launch_args");
                }
            },
            None => {
                ini.remove_key("Loader", "launch_args");
            },
        }
    }
    if s.show_error_popup {
        ini.set("Logging", "show_warnings", "1");
    } else {
        ini.set("Logging", "show_warnings", "0");
    }
    if s.auto_set_analyse_options {
        ini.set(
            "Hunting",
            "analyse_options",
            "deferred_ctx_immediate dump_rt dump_cb dump_vb dump_ib buf txt dds dump_tex dds",
        );
    }
    match s.delay {
        Some(d) => {
            let v = i32_dec(d);
            ini.set("System", "dll_initialization_delay", v.as_str());
        },
        None => {},
    }
    ini.set("Hunting", "hunting", "2");
    ini.set("Hunting", "marking_actions", "clipboard asm hlsl");
    match s.auto_exit_seconds {
        Some(x) => {
            let v = i32_dec(x);
            ini.set("Loader", "delay", v.as_str());
        },
        None => {},
    }
    match &s.extra_dll {
        Some(d) => {
            if d.as_str().unicode_len() > 0 {
                ini.set("Loader", "inject_dll", d.as_str());
            } else {
                ini.remove_key("Loader", "inject_dll");
            }
        },
        None => {
            ini.remove_key("Loader", "inject_dll");
        },
    }
}

/// The hunting analyse options with and without the symlink flag.
pub open spec fn spec_symlink_value(enable: bool) -> Seq<char> {
    if enable {
        "deferred_ctx_immediate dump_rt dump_cb dump_vb dump_ib buf txt dds dump_tex dds symlink"@
    } else {
        "deferred_ctx_immediate dump_rt dump_cb dump_vb dump_ib buf txt dds dump_tex dds"@
    }
}

/// Turns the symlink analyse option on or off in the loader config.
pub fn apply_symlink_setting(ini: &mut IniManager, enable: bool)
    ensures
        final(ini).path == old(ini).path,
        final(ini).content@ == apply_set(
            old(ini).content@,
            "hunting"@,
            "analyse_options"@,
            spec_symlink_value(enable),
        ),
{
    if enable {
        ini.set(
            "hunting",
            "analyse_options",
            "deferred_ctx_immediate dump_rt dump_cb dump_vb dump_ib buf txt dds dump_tex dds symlink",
        );
    } else {
        ini.set(
            "hunting",
            "analyse_options",
            "deferred_ctx_immediate dump_rt dump_cb dump_vb dump_ib buf txt dds dump_tex dds",
        );
    }
}

/// Resolves the loader's install directory: an explicitly configured,
/// nonblank directory wins; otherwise it lives under the cache directory,
/// which must then be set.
pub fn resolve_migoto_path(install_dir: &Option<String>, cache_dir: &str, game_name: &str) -> (r:
    Result<String, LibError>)
    ensures
        match r {
            Ok(p) => match *install_dir {
                Some(d) => if trim(d@).len() > 0 {
                    p@ == d@
                } else {
                    cache_dir@.len() > 0 && p@ == cache_dir@ + "/3Dmigoto/"@ + game_name@
                },
                None => cache_dir@.len() > 0 && p@ == cache_dir@ + "/3Dmigoto/"@ + game_name@,
            },
            Err(e) => e == LibError::NotFound && cache_dir@.len() == 0 && match *install_dir {
                Some(d) => trim(d@).len() == 0,
                None => true,
            },
        },
{
    match install_dir {
        Some(d) => {
            let t = str_trim(d.as_str());
            if t.unicode_len() > 0 {
                return Ok(d.clone());
            }
        },
        None => {},
    }
    if cache_dir.unicode_len() == 0 {
        return Err(LibError::NotFound);
    }
    Ok(concat3(cache_dir, "/3Dmigoto/", game_name))
}

/// Whether an observed process is the loader being waited for: its
/// lowercased name must match, and its executable path, where readable,
/// must be the loader's own.
pub fn is_matching_process(
    proc_name_lower: &str,
    proc_exe_lower: &Option<String>,
    run_exe_lower: &str,
) -> (r: bool)
    ensures
        r == (proc_name_lower@ == "run.exe"@ && match *proc_exe_lower {
            Some(e) => e@ == run_exe_lower@,
            None => true,
        }),
{
    if !crate::archive::str_eq_exec(proc_name_lower, "run.exe") {
        return false;
    }
    match proc_exe_lower {
        Some(e) => crate::archive::str_eq_exec(e.as_str(), run_exe_lower),
        None => true,
    }
}

} // verus!
