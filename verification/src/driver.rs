//! One whole invocation against the model: classify the source, reject what
//! must be rejected without touching the destination, and otherwise hand the
//! pair to the copy. The exit status follows the command-line convention:
//! zero on success, one on a missing source, on a directory source without
//! the recursive flag, and on any copy failure.

use vstd::prelude::*;

use crate::copy::{copy_node, merge_ok, Notice};
use crate::fs_model::{
    clone_node, compatible_opt, is_dir_node, opt_deref, same_tree_opt, wf, Node,
};
use crate::invoke::{plan_invocation, Options, Plan, SourceKind};

verus! {

/// What one invocation left behind: the destination tree when the run
/// succeeded, the exit status, the position after the consumed answers, and
/// the notices in order.
#[derive(Debug)]
pub struct RunResult {
    /// The destination after a successful run; a failed run aborts midway
    /// and promises nothing of what it left.
    pub dest_after: Option<Node>,
    pub exit: i32,
    pub next_answer: usize,
    pub log: Vec<Notice>,
}

/// A successful run's destination: present, and meeting the copy guarantee
/// against the source and the prior destination.
pub open spec fn run_copy_ok(
    src: Option<Node>,
    dest: Option<Node>,
    r_dest: Option<Node>,
    interactive: bool,
) -> bool {
    match (src, r_dest) {
        (Some(s), Some(out)) => merge_ok(s, dest, out, interactive),
        _ => false,
    }
}

/// Classify the source as an invocation sees it: absent, a file, or a
/// directory.
pub fn classify(src: Option<&Node>) -> (k: SourceKind)
    ensures
        (k is Missing) <==> (src is None),
        (k is Directory) <==> (src matches Some(s) && s is Dir),
        (k is Regular) <==> (src matches Some(s) && s is File),
{
    match src {
        None => SourceKind::Missing,
        Some(s) => {
            if is_dir_node(s) {
                SourceKind::Directory
            } else {
                SourceKind::Regular
            }
        },
    }
}

/// Run one invocation: a missing source or a directory source without the
/// recursive flag is rejected with exit status one, the destination left
/// untouched, nothing reported and no answer read; otherwise the copy runs
/// and the exit status says whether it succeeded.
pub fn run_invocation(
    src: Option<&Node>,
    dest: Option<&Node>,
    opts: &Options,
    answers: &Vec<Vec<u8>>,
    src_path: &Vec<Vec<u8>>,
    dest_path: &Vec<Vec<u8>>,
) -> (r: RunResult)
    requires
        src matches Some(s) ==> wf(*s),
    ensures
        r.exit == 0 || r.exit == 1,
        r.next_answer <= answers@.len(),
        src is None ==> r.exit == 1 && same_tree_opt(r.dest_after, opt_deref(dest))
            && r.log@.len() == 0 && r.next_answer == 0,
        src matches Some(s) && s is Dir && !opts.recursive ==> r.exit == 1 && same_tree_opt(
            r.dest_after,
            opt_deref(dest),
        ) && r.log@.len() == 0 && r.next_answer == 0,
        src matches Some(s) && (s is File || opts.recursive) && compatible_opt(
            *s,
            opt_deref(dest),
        ) ==> r.exit == 0,
        src matches Some(s) && (s is File || opts.recursive) && r.exit == 0 ==> run_copy_ok(
            opt_deref(src),
            opt_deref(dest),
            r.dest_after,
            opts.interactive,
        ),
        src matches Some(s) && (s is File || opts.recursive) && r.exit == 1 ==> r.dest_after
            is None,
        src matches Some(s) && (s is File || opts.recursive) && !opts.interactive
            ==> r.next_answer == 0,
        forall|k: int| #![trigger r.log@[k]]
            0 <= k < r.log@.len() ==> (opts.verbose || r.log@[k] is NotOverwriting) && (
            opts.interactive || !(r.log@[k] is NotOverwriting)),
{
    let kind = classify(src);
    let plan = plan_invocation(kind, opts.recursive);
    match plan {
        Plan::RejectMissingSource | Plan::RejectDirectoryNotRecursive => {
            let kept = match dest {
                Some(d) => Some(clone_node(d)),
                None => None,
            };
            RunResult { dest_after: kept, exit: 1, next_answer: 0, log: Vec::new() }
        },
        Plan::CopySingleFile | Plan::CopyTree => {
            let s = src.unwrap();
            let step = copy_node(s, dest, opts, answers, 0, src_path, dest_path);
            match step.result {
                Ok(out) => RunResult {
                    dest_after: Some(out),
                    exit: 0,
                    next_answer: step.next_answer,
                    log: step.log,
                },
                Err(_) => RunResult {
                    dest_after: None,
                    exit: 1,
                    next_answer: step.next_answer,
                    log: step.log,
                },
            }
        },
    }
}

} // verus!
