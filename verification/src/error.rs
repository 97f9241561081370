//! The errors a command can be refused with.

use vstd::prelude::*;
use crate::base::Id;

verus! {

/// Why a command was refused. Every error aborts the current command only;
/// caches keep whatever they had already accumulated.
#[derive(Debug)]
pub enum Error {
    /// A command referenced an identifier that was never registered, or one
    /// registered with a different kind. An unknown file reference surfaces
    /// this way too: files are registered with their content, so a file
    /// identifier that resolves can always be read.
    MissingId(Id),
    /// A filter or distinct node's parent chain reaches no tag.
    NoGoverningTag(Id),
    /// A tag's extraction cannot be reconfigured once its cache holds values:
    /// caches never shrink, and stale values would contradict the new rule.
    TagCached(Id),
    /// The pattern did not compile; the message is the pattern engine's.
    Regex(String),
    /// A script failed to run; the message is the script runtime's.
    Script(String),
    /// The command is declared in the surface language but not implemented.
    Unsupported,
}

} // verus!
