//! Path codec: pure mapping between on-disk directory base names and the
//! logical enabled/disabled state, encoded as a fixed name prefix.
use vstd::prelude::*;

use crate::spec_disable_prefix;
use crate::disable_prefix;
use crate::strutil::starts_with;
use crate::strutil::str_starts_with;
use crate::strutil::substring_string;
use crate::strutil::concat2;

verus! {

/// A directory base name carrying the disable marker, added unless present.
pub open spec fn spec_encode_disabled(n: Seq<char>) -> Seq<char> {
    if starts_with(n, spec_disable_prefix()) {
        n
    } else {
        spec_disable_prefix() + n
    }
}

/// The display name: the base name with every leading disable marker
/// stripped, so a display name never carries the marker.
pub open spec fn spec_display_name(n: Seq<char>) -> Seq<char>
    decreases n.len(),
    via spec_display_name_decreases
{
    if starts_with(n, spec_disable_prefix()) {
        spec_display_name(n.skip(spec_disable_prefix().len() as int))
    } else {
        n
    }
}

#[via_fn]
proof fn spec_display_name_decreases(n: Seq<char>) {
    reveal_strlit("DISABLED_");
    assert(spec_disable_prefix().len() > 0);
}

/// Whether a base name denotes an enabled mod: no disable marker.
pub open spec fn spec_enabled(n: Seq<char>) -> bool {
    !starts_with(n, spec_disable_prefix())
}

/// The base name after requesting a given enabled state: the marker is
/// stripped to enable and added to disable, idempotently.
pub open spec fn spec_toggle(n: Seq<char>, enable: bool) -> Seq<char> {
    if enable {
        spec_display_name(n)
    } else {
        spec_encode_disabled(n)
    }
}

/// Prefixes a directory base name with the disable marker unless it is
/// already present.
pub fn encode_disabled(name: &str) -> (r: String)
    ensures
        r@ == spec_encode_disabled(name@),
{
    if str_starts_with(name, disable_prefix()) {
        String::from_str(name)
    } else {
        concat2(disable_prefix(), name)
    }
}

/// Splits a directory base name into its display name and enabled state.
pub fn decode(name: &str) -> (r: (String, bool))
    ensures
        r.0@ == spec_display_name(name@),
        r.1 == spec_enabled(name@),
{
    let enabled = !str_starts_with(name, disable_prefix());
    let mut cur = String::from_str(name);
    while str_starts_with(cur.as_str(), disable_prefix())
        invariant
            spec_display_name(cur@) == spec_display_name(name@),
        decreases cur@.len(),
    {
        let plen = disable_prefix().unicode_len();
        let n = cur.as_str().unicode_len();
        proof {
            assert(spec_disable_prefix().len() > 0) by {
                reveal_strlit("DISABLED_");
            }
        }
        let stripped = substring_string(cur.as_str(), plen, n);
        assert(stripped@ =~= cur@.skip(spec_disable_prefix().len() as int));
        cur = stripped;
    }
    (cur, enabled)
}

/// Prepending the marker yields a name that carries the marker.
proof fn lemma_prefix_concat(n: Seq<char>)
    ensures
        starts_with(spec_disable_prefix() + n, spec_disable_prefix()),
{
    let p = spec_disable_prefix();
    assert((p + n).subrange(0, p.len() as int) =~= p);
}

/// A display name never carries the disable marker.
pub proof fn lemma_display_name_marker_free(n: Seq<char>)
    ensures
        !starts_with(spec_display_name(n), spec_disable_prefix()),
    decreases n.len(),
{
    if starts_with(n, spec_disable_prefix()) {
        assert(spec_disable_prefix().len() > 0) by {
            reveal_strlit("DISABLED_");
        }
        lemma_display_name_marker_free(n.skip(spec_disable_prefix().len() as int));
    }
}

/// Encoding as disabled always yields a name that decodes as disabled, and
/// encoding is idempotent.
pub proof fn lemma_encode_disabled_decodes_disabled(n: Seq<char>)
    ensures
        !spec_enabled(spec_encode_disabled(n)),
        spec_encode_disabled(spec_encode_disabled(n)) == spec_encode_disabled(n),
{
    if !starts_with(n, spec_disable_prefix()) {
        lemma_prefix_concat(n);
    }
}

/// Toggling to the opposite state and back returns the original base name.
/// An enabled name round-trips unconditionally. A disabled name needs to
/// carry exactly one marker: enabling strips them all, disabling restores
/// only one.
pub proof fn lemma_toggle_round_trip(n: Seq<char>)
    ensures
        spec_enabled(n) ==> spec_toggle(spec_toggle(n, false), true) == n,
        !spec_enabled(n) && n == spec_disable_prefix() + spec_display_name(n) ==> spec_toggle(
            spec_toggle(n, true),
            false,
        ) == n,
{
    let p = spec_disable_prefix();
    if spec_enabled(n) {
        lemma_prefix_concat(n);
        assert((p + n).skip(p.len() as int) =~= n);
        assert(spec_display_name(n) == n);
    } else {
        lemma_display_name_marker_free(n);
    }
}

} // verus!
