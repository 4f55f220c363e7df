//! The directive patterns, and the regular-expression matcher that applies
//! them.

use vstd::prelude::*;

verus! {

/// `#include <name>`, alone on its line.
pub const INCLUDE_ANGLE: &'static str = "^\\s*#\\s*include\\s+<([:print:]+)>\\s*$";

/// `#include "name"`, alone on its line.
pub const INCLUDE_QUOTE: &'static str = "^\\s*#\\s*include\\s+\"([:print:]+)\"\\s*$";

/// `#version <digits>` at the start of a line.
pub const VERSION: &'static str = r"^\s*#\s*version\s+(\d+)";

/// Whether `regex::Regex::new` compiles the pattern.
pub uninterp spec fn pattern_accepted(pattern: Seq<char>) -> bool;

/// What `regex::Regex::captures` finds in a text for the compiled pattern,
/// as `regex::Captures::at` reads it for one group.
pub uninterp spec fn captured(pattern: Seq<char>, text: Seq<char>, group: nat) -> Option<Seq<char>>;

/// `regex::Regex::new`: tells whether the pattern compiles.
#[verifier::external_body]
pub(crate) fn compiles(pattern: &str) -> (ok: bool)
    ensures
        ok == pattern_accepted(pattern@),
{
    regex::Regex::new(pattern).is_ok()
}

/// `regex::Regex::captures` on the pattern compiled by `regex::Regex::new`,
/// then `regex::Captures::at`: the text that the group matched in the
/// leftmost match, if the pattern matches and the group took part. The result
/// is the matcher's own; the contract only gives it its name.
///
/// The matcher keeps two slots for a group and looks for them at twice the
/// group's number and one behind, so the number must leave room for that.
#[verifier::external_body]
pub(crate) fn capture(pattern: &str, text: &str, group: usize) -> (r: Option<String>)
    requires
        pattern_accepted(pattern@),
        2 * group + 1 <= usize::MAX,
    ensures
        r is Some == captured(pattern@, text@, group as nat) is Some,
        r is Some ==> r->0@ == captured(pattern@, text@, group as nat)->0,
{
    let found = regex::Regex::new(pattern).unwrap().captures(text)?;
    found.at(group).map(str::to_string)
}

} // verus!
