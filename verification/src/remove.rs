//! Removing a path recursively, the way `rm -rf` does.
//!
//! The removal refuses glob patterns, looks at what the path names without
//! following a final symbolic link, and then removes a directory tree, a
//! single entry, or nothing when there is nothing at the path.

use vstd::prelude::*;
use crate::path::{
    is_glob_pattern,
    lemma_glob_pattern_by_bytes,
    spec_is_glob_pattern,
    OPEN_BRACKET,
    QUESTION,
    STAR,
};

verus! {

/// Why a look at a path found nothing to describe.
#[derive(Clone, Copy, Debug, PartialEq, Eq, Structural)]
pub enum LookupFailure {
    /// Nothing exists at the path.
    NotFound,
    /// A component on the way to the path is not a directory, so nothing
    /// can exist at the path.
    NotADirectory,
    /// Any other failure (for instance, permission denied).
    Other,
}

/// What a look at a path (without following a final symbolic link) saw.
#[derive(Clone, Copy, Debug, PartialEq, Eq, Structural)]
pub enum PathProbe {
    /// The path names a directory.
    Directory,
    /// The path names something other than a directory.
    NotDirectory,
    /// The look failed.
    Failed(LookupFailure),
}

/// What to do to remove a path.
#[derive(Clone, Copy, Debug, PartialEq, Eq, Structural)]
pub enum Removal {
    /// Remove the directory and everything below it.
    RemoveTree,
    /// Remove the single entry.
    RemoveFile,
    /// There is nothing to remove; the removal succeeds.
    Nothing,
    /// The look at the path failed; the removal fails with that failure.
    ReportProbeFailure,
}

/// Why a path is refused for removal.
#[derive(Debug, PartialEq, Eq)]
pub enum RemoveError {
    /// The path is a glob pattern, which is never expanded for removal.
    GlobPattern(Vec<u8>),
}

/// The removal that a probe calls for.
pub open spec fn spec_removal(probe: PathProbe) -> Removal {
    match probe {
        PathProbe::Directory => Removal::RemoveTree,
        PathProbe::NotDirectory => Removal::RemoveFile,
        PathProbe::Failed(LookupFailure::NotFound) => Removal::Nothing,
        PathProbe::Failed(LookupFailure::NotADirectory) => Removal::Nothing,
        PathProbe::Failed(LookupFailure::Other) => Removal::ReportProbeFailure,
    }
}

/// Decides how to remove `path`, given what a look at it saw: a glob
/// pattern is refused whatever the look saw; otherwise a directory is
/// removed with its contents, anything else is removed as a single entry,
/// and a path at which nothing can exist is not an error.
pub fn removal_plan(path: &[u8], probe: PathProbe) -> (r: Result<Removal, RemoveError>)
    ensures
        r is Err <==> spec_is_glob_pattern(path@),
        r matches Err(RemoveError::GlobPattern(p)) ==> p@ == path@,
        r matches Ok(m) ==> m == spec_removal(probe),
        forall|i: int|
            0 <= i < path@.len() && (#[trigger] path@[i] == STAR || path@[i] == QUESTION
                || path@[i] == OPEN_BRACKET) ==> (r matches Err(RemoveError::GlobPattern(p))
                && p@ == path@),
{
    proof {
        lemma_glob_pattern_by_bytes(path@);
    }
    if is_glob_pattern(path) {
        return Err(RemoveError::GlobPattern(vstd::slice::slice_to_vec(path)));
    }
    Ok(
        match probe {
            PathProbe::Directory => Removal::RemoveTree,
            PathProbe::NotDirectory => Removal::RemoveFile,
            PathProbe::Failed(LookupFailure::NotFound) => Removal::Nothing,
            PathProbe::Failed(LookupFailure::NotADirectory) => Removal::Nothing,
            PathProbe::Failed(LookupFailure::Other) => Removal::ReportProbeFailure,
        },
    )
}


/// What removing a path that is not a glob pattern does, for each thing a
/// look at it can see: a directory goes with everything below it, anything
/// else goes alone, a path at which nothing exists (or can exist, below a
/// file) needs nothing and succeeds, and only another failure of the look
/// fails the removal.
pub proof fn lemma_removal_outcomes(path: Seq<u8>)
    requires
        forall|i: int|
            0 <= i < path.len() ==> !(#[trigger] path[i] == STAR || path[i] == QUESTION || path[i]
                == OPEN_BRACKET),
    ensures
        !spec_is_glob_pattern(path),
        spec_removal(PathProbe::Directory) == Removal::RemoveTree,
        spec_removal(PathProbe::NotDirectory) == Removal::RemoveFile,
        spec_removal(PathProbe::Failed(LookupFailure::NotFound)) == Removal::Nothing,
        spec_removal(PathProbe::Failed(LookupFailure::NotADirectory)) == Removal::Nothing,
        spec_removal(PathProbe::Failed(LookupFailure::Other)) == Removal::ReportProbeFailure,
{
    lemma_glob_pattern_by_bytes(path);
}

} // verus!
