//! Library operations on the directory tree, as pure decisions: the caller
//! performs the existence checks and renames on disk, the library says what
//! to rename and when to fail.
use vstd::prelude::*;

use crate::codec::spec_toggle;
use crate::codec::encode_disabled;
use crate::codec::decode;
use crate::errors::LibError;
use crate::paths::segments;
use crate::paths::segments_exec;
use crate::strutil::concat3;
use crate::archive::str_eq_exec;

verus! {

/// The outcome of a toggle request: the directory base name after the
/// request, and whether it differs from the current one.
pub struct TogglePlan {
    pub new_name: String,
    pub changed: bool,
}

/// Decides the rename for enabling or disabling a mod directory. The
/// request is idempotent: a name already in the requested state is kept.
pub fn toggle_plan(dir_name: &str, enable: bool) -> (r: TogglePlan)
    ensures
        r.new_name@ == spec_toggle(dir_name@, enable),
        r.changed == (spec_toggle(dir_name@, enable) != dir_name@),
{
    let new_name = if enable {
        let decoded = decode(dir_name);
        decoded.0
    } else {
        encode_disabled(dir_name)
    };
    let changed = !str_eq_exec(new_name.as_str(), dir_name);
    TogglePlan { new_name, changed }
}

/// A mod may be toggled only where its directory exists.
pub fn toggle_check(mod_exists: bool) -> (r: Result<(), LibError>)
    ensures
        r is Ok <==> mod_exists,
        r is Err ==> r == Err::<(), LibError>(LibError::NotFound),
{
    if mod_exists {
        Ok(())
    } else {
        Err(LibError::NotFound)
    }
}

/// A group may be created only where no directory of that name exists.
pub fn create_group_check(group_exists: bool) -> (r: Result<(), LibError>)
    ensures
        r is Ok <==> !group_exists,
        r is Err ==> r == Err::<(), LibError>(LibError::AlreadyExists),
{
    if group_exists {
        Err(LibError::AlreadyExists)
    } else {
        Ok(())
    }
}

/// A group may be renamed only where the old name exists and the new one
/// does not.
pub fn rename_group_check(old_exists: bool, new_exists: bool) -> (r: Result<(), LibError>)
    ensures
        r is Ok <==> (old_exists && !new_exists),
        !old_exists ==> r == Err::<(), LibError>(LibError::NotFound),
        old_exists && new_exists ==> r == Err::<(), LibError>(LibError::AlreadyExists),
{
    if !old_exists {
        Err(LibError::NotFound)
    } else if new_exists {
        Err(LibError::AlreadyExists)
    } else {
        Ok(())
    }
}

/// A group may be deleted only where it exists.
pub fn delete_group_check(group_exists: bool) -> (r: Result<(), LibError>)
    ensures
        r is Ok <==> group_exists,
        r is Err ==> r == Err::<(), LibError>(LibError::NotFound),
{
    if group_exists {
        Ok(())
    } else {
        Err(LibError::NotFound)
    }
}

/// The group a move really targets: the root sentinel and the empty name
/// fall back to the fixed default group, so no mod ever sits directly under
/// the mods root.
pub open spec fn spec_resolve_target_group(g: Seq<char>) -> Seq<char> {
    if g == "Root"@ || g.len() == 0 {
        "Default"@
    } else {
        g
    }
}

/// Exec form of `spec_resolve_target_group`.
pub fn resolve_target_group(new_group: &str) -> (r: String)
    ensures
        r@ == spec_resolve_target_group(new_group@),
{
    if str_eq_exec(new_group, "Root") || new_group.unicode_len() == 0 {
        String::from_str("Default")
    } else {
        String::from_str(new_group)
    }
}

/// A move plan: the resolved destination group, the mod's own directory
/// name, and the destination path relative to the mods root.
pub struct MovePlan {
    pub target_group: String,
    pub mod_name: String,
    pub dest_rel: String,
}

/// Plans moving the mod at `mod_id` (a path relative to the mods root) into
/// `new_group`. Fails when the id has no final path segment.
pub fn move_mod_plan(mod_id: &str, new_group: &str) -> (r: Result<MovePlan, LibError>)
    ensures
        match r {
            Ok(plan) => segments(mod_id@).len() > 0 && plan.mod_name@ == segments(mod_id@)[segments(
                mod_id@,
            ).len() - 1] && plan.target_group@ == spec_resolve_target_group(new_group@)
                && plan.dest_rel@ == spec_resolve_target_group(new_group@) + seq!['/']
                + plan.mod_name@,
            Err(e) => e == LibError::NotFound && segments(mod_id@).len() == 0,
        },
{
    let segs = segments_exec(mod_id);
    if segs.len() == 0 {
        return Err(LibError::NotFound);
    }
    let last = segs.len() - 1;
    assert(segs.deep_view()[last as int] == segs[last as int]@);
    let mod_name = segs[last].clone();
    let target_group = resolve_target_group(new_group);
    let dest_rel = concat3(target_group.as_str(), "/", mod_name.as_str());
    proof {
        reveal_strlit("/");
        assert("/"@ =~= seq!['/']);
    }
    Ok(MovePlan { target_group, mod_name, dest_rel })
}

/// A planned move may be carried out only where the source exists and no
/// same-named entry sits at the destination.
pub fn move_mod_check(src_exists: bool, dest_exists: bool) -> (r: Result<(), LibError>)
    ensures
        r is Ok <==> (src_exists && !dest_exists),
        !src_exists ==> r == Err::<(), LibError>(LibError::NotFound),
        src_exists && dest_exists ==> r == Err::<(), LibError>(LibError::AlreadyExists),
{
    if !src_exists {
        Err(LibError::NotFound)
    } else if dest_exists {
        Err(LibError::AlreadyExists)
    } else {
        Ok(())
    }
}

/// An archive may be installed only where the destination directory does
/// not already exist; a leftover from a failed earlier install must be
/// cleaned up or renamed away first.
pub fn install_dest_check(dest_exists: bool) -> (r: Result<(), LibError>)
    ensures
        r is Ok <==> !dest_exists,
        r is Err ==> r == Err::<(), LibError>(LibError::AlreadyExists),
{
    if dest_exists {
        Err(LibError::AlreadyExists)
    } else {
        Ok(())
    }
}

/// The destination of an archive install, relative to the mods root:
/// `group/name` with the root sentinel resolved to the default group.
pub fn install_dest_rel(target_group: &str, target_name: &str) -> (r: String)
    ensures
        r@ == spec_resolve_target_group(target_group@) + seq!['/'] + target_name@,
{
    let g = resolve_target_group(target_group);
    let r = concat3(g.as_str(), "/", target_name);
    proof {
        reveal_strlit("/");
        assert("/"@ =~= seq!['/']);
    }
    r
}

} // verus!
