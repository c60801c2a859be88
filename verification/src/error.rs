//! What can go wrong with a configuration.

use vstd::prelude::*;

verus! {

/// The configuration does not have the shape that patching needs. This is
/// fatal for one attempt and calls for a change to the configuration itself.
#[derive(Debug, Clone, Copy, PartialEq, Eq, Structural)]
pub enum ConfigFormatError {
    /// No user-written line of the document holds the anchor token.
    MissingAnchor,
    /// The resource has no entry under the document's key.
    MissingDocument,
}

} // verus!
