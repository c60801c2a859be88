//! The lines that this library owns in a configuration, and the line after
//! which it puts them.

use crate::text::{chars_of, contains, contains_chars, newline_free, occurs_at};
use vstd::prelude::*;

verus! {

/// The token that opens the top-level server block.
pub const ANCHOR_TOKEN: &'static str = ".:53 {";

/// The comment that marks a line as written by this library.
pub const MARKER: &'static str = " # Added by cert-fixer";

/// The line that rewrites `host` to `target`.
pub open spec fn managed_entry(host: Seq<char>, target: Seq<char>) -> Seq<char> {
    "    rewrite name "@ + host + " "@ + target + "  # Added by cert-fixer"@
}

/// The lines that rewrite each of `hosts` to `target`, in the order of `hosts`.
pub open spec fn managed_block(hosts: Seq<Seq<char>>, target: Seq<char>) -> Seq<Seq<char>> {
    Seq::new(hosts.len(), |i: int| managed_entry(hosts[i], target))
}

/// The hostnames as character sequences.
pub open spec fn host_names(hosts: Seq<String>) -> Seq<Seq<char>> {
    Seq::new(hosts.len(), |i: int| hosts[i]@)
}

/// `line` bears the marker, so this library wrote it and may remove it.
pub open spec fn is_managed(line: Seq<char>) -> bool {
    contains(line, MARKER@)
}

/// `line` holds the anchor token.
pub open spec fn is_anchor(line: Seq<char>) -> bool {
    contains(line, ANCHOR_TOKEN@)
}

/// Every entry ends in the marker, and so is recognised as managed.
pub proof fn lemma_entry_is_managed(host: Seq<char>, target: Seq<char>)
    ensures
        is_managed(managed_entry(host, target)),
        MARKER@.len() <= managed_entry(host, target).len(),
        occurs_at(
            managed_entry(host, target),
            MARKER@,
            managed_entry(host, target).len() - MARKER@.len(),
        ),
{
    reveal_strlit(" # Added by cert-fixer");
    reveal_strlit("  # Added by cert-fixer");
    let entry = managed_entry(host, target);
    let at = entry.len() - MARKER@.len();
    assert(entry.subrange(at, at + MARKER@.len()) =~= MARKER@);
    assert(occurs_at(entry, MARKER@, at));
}

/// An entry for a host and a target without line breaks has none itself.
pub proof fn lemma_entry_newline_free(host: Seq<char>, target: Seq<char>)
    requires
        newline_free(host),
        newline_free(target),
    ensures
        newline_free(managed_entry(host, target)),
{
    reveal_strlit("    rewrite name ");
    reveal_strlit(" ");
    reveal_strlit("  # Added by cert-fixer");
}

/// Builds the line that rewrites `host` to `target`.
pub fn entry_line(host: &str, target: &str) -> (line: Vec<char>)
    ensures
        line@ == managed_entry(host@, target@),
{
    let mut line = chars_of("    rewrite name ");
    let mut host_chars = chars_of(host);
    let mut gap = chars_of(" ");
    let mut target_chars = chars_of(target);
    let mut tail = chars_of("  # Added by cert-fixer");
    line.append(&mut host_chars);
    line.append(&mut gap);
    line.append(&mut target_chars);
    line.append(&mut tail);
    line
}

/// Whether `line` bears the marker.
pub fn line_is_managed(line: &Vec<char>) -> (managed: bool)
    ensures
        managed == is_managed(line@),
{
    let needle = chars_of(MARKER);
    contains_chars(line, &needle)
}

/// Whether `line` holds the anchor token.
pub fn line_is_anchor(line: &Vec<char>) -> (anchor: bool)
    ensures
        anchor == is_anchor(line@),
{
    let needle = chars_of(ANCHOR_TOKEN);
    contains_chars(line, &needle)
}

} // verus!
