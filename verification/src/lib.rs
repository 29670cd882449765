//! Core engine for a game-mod library: directory-name state codec,
//! catalog scanning, archive installation planning, and a structure-preserving
//! key/value text-config patcher.
use vstd::prelude::*;

pub mod archive;
pub mod catalog;
pub mod codec;
pub mod errors;
pub mod gameconf;
pub mod ini;
pub mod launcher;
pub mod ops;
pub mod paths;
pub mod readers;
pub mod sorting;
pub mod strutil;

verus! {

/// The fixed directory-name prefix that marks a mod as disabled.
pub open spec fn spec_disable_prefix() -> Seq<char> {
    "DISABLED_"@
}

/// Returns the disable marker used on directory base names.
pub fn disable_prefix() -> (r: &'static str)
    ensures
        r@ == spec_disable_prefix(),
{
    "DISABLED_"
}

} // verus!
