//! Invocation-level decisions: which operation an invocation asks for,
//! and how outcomes map to the process exit status.

use vstd::prelude::*;

verus! {

/// The flags of one invocation, fixed at startup.
#[derive(Clone, Copy, PartialEq, Eq, Debug)]
pub struct Options {
    /// Copy directories recursively.
    pub recursive: bool,
    /// Print a notice for each completed copy.
    pub verbose: bool,
    /// Ask before overwriting an existing destination file.
    pub interactive: bool,
}

/// What a read-only inspection of the source path reported.
#[derive(Clone, Copy, PartialEq, Eq, Debug)]
pub enum SourceKind {
    /// The path does not exist.
    Missing,
    /// The path exists and is not a directory.
    Regular,
    /// The path exists and is a directory.
    Directory,
}

/// The operation chosen for an invocation.
#[derive(Clone, Copy, PartialEq, Eq, Debug)]
pub enum Plan {
    /// The source does not exist: report and fail without touching anything.
    RejectMissingSource,
    /// The source is a directory but recursion was not requested:
    /// report and fail without touching anything.
    RejectDirectoryNotRecursive,
    /// Copy one regular file.
    CopySingleFile,
    /// Copy a directory tree.
    CopyTree,
}

/// Decide what an invocation does, from the source classification and the
/// recursive flag alone.
pub fn plan_invocation(kind: SourceKind, recursive: bool) -> (p: Plan)
    ensures
        (p is RejectMissingSource) <==> (kind is Missing),
        (p is RejectDirectoryNotRecursive) <==> (kind is Directory && !recursive),
        (p is CopyTree) <==> (kind is Directory && recursive),
        (p is CopySingleFile) <==> (kind is Regular),
{
    match kind {
        SourceKind::Missing => Plan::RejectMissingSource,
        SourceKind::Regular => Plan::CopySingleFile,
        SourceKind::Directory => {
            if recursive {
                Plan::CopyTree
            } else {
                Plan::RejectDirectoryNotRecursive
            }
        },
    }
}

/// Map the outcome of a dispatched operation to the process exit status:
/// zero on success, one on any failure.
pub fn exit_code(success: bool) -> (c: i32)
    ensures
        c == (if success { 0i32 } else { 1i32 }),
{
    if success {
        0
    } else {
        1
    }
}

} // verus!
