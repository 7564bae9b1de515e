//! The copy operation itself, on the model tree: a single file copy with the
//! interactive overwrite policy, and the recursive directory merge. The
//! contracts pin down the resulting tree, when the operation is owed success,
//! which answers are consumed, and what the emitted notices are.

use vstd::prelude::*;

use crate::answer::{answer_is_yes, is_yes};
use crate::fs_model::{
    clone_bytes, clone_node, clone_path, compatible, compatible_opt, dir_at, dir_at_opt,
    distinct_names, entries_equiv, exists_at, exists_at_opt, file_at, file_at_opt, find, find_entry,
    find_idx, is_dir_node, lemma_compat_child, lemma_compat_equiv, lemma_find_idx_first,
    lemma_find_idx_pointwise, lemma_find_idx_props, lemma_lookup_child, lemma_path_uncons,
    lemma_same_tree_file, lemma_same_tree_symm, lemma_wf_child, lookup, opt_deref, push_component,
    same_tree, same_tree_opt, wf, Entry, Node,
};
use crate::invoke::Options;

verus! {

broadcast use vstd::std_specs::vec::group_vec_axioms;

/// A notice emitted while copying, in the order a run prints them.
#[derive(Debug, PartialEq, Eq)]
pub enum Notice {
    /// One file was copied (printed only in verbose mode).
    CopiedFile { src: Vec<Vec<u8>>, dest: Vec<Vec<u8>> },
    /// The user declined an overwrite (always printed).
    NotOverwriting { dest: Vec<Vec<u8>> },
    /// One directory finished copying (printed only in verbose mode,
    /// after all of its children).
    CopiedDir { src: Vec<Vec<u8>>, dest: Vec<Vec<u8>> },
}

/// A failed write: the copy found a file where a directory stands, or the
/// other way round, at the given paths.
#[derive(Debug, PartialEq, Eq)]
pub struct CopyError {
    pub source: Vec<Vec<u8>>,
    pub dest: Vec<Vec<u8>>,
}

/// What one copy call produced: the new destination tree or the first error,
/// the position after the consumed answers, and the notices in order.
#[derive(Debug)]
pub struct CopyStep {
    pub result: Result<Node, CopyError>,
    pub next_answer: usize,
    pub log: Vec<Notice>,
}

/// Two paths carrying the same components.
pub open spec fn paths_match(a: Seq<Vec<u8>>, b: Seq<Vec<u8>>) -> bool {
    &&& a.len() == b.len()
    &&& forall|k: int| #![trigger a[k]] 0 <= k < a.len() ==> a[k]@ == b[k]@
}

/// The answer at position `ai` exists and confirms an overwrite.
pub open spec fn confirms(answers: Seq<Vec<u8>>, ai: int) -> bool {
    0 <= ai < answers.len() && is_yes(answers[ai]@)
}

/// A successful single-file copy: the output is a file holding exactly the
/// source's bytes.
pub open spec fn plain_file_copy(src: Node, out: Node) -> bool {
    src matches Node::File { data: sd } && out matches Node::File { data: od } && od@ == sd@
}

/// What a successful copy of `src` over `dest` guarantees of its output.
/// Without interaction the source is mirrored in full and nothing then
/// conflicts; whatever the interaction, everything the source does not reach
/// is left exactly as the destination had it.
pub open spec fn merge_ok(src: Node, dest: Option<Node>, out: Node, interactive: bool) -> bool {
    &&& (!interactive ==> {
        &&& compatible_opt(src, dest)
        &&& forall|p: Seq<Seq<u8>>| #![trigger file_at(src, p)]
            file_at(src, p) is Some ==> file_at(out, p) == file_at(src, p)
        &&& forall|p: Seq<Seq<u8>>| #![trigger dir_at(src, p)] dir_at(src, p) ==> dir_at(out, p)
    })
    &&& forall|p: Seq<Seq<u8>>| #![trigger file_at(out, p)]
        !exists_at(src, p) ==> file_at(out, p) == file_at_opt(dest, p)
    &&& forall|p: Seq<Seq<u8>>| #![trigger dir_at(out, p)]
        !exists_at(src, p) ==> dir_at(out, p) == dir_at_opt(dest, p)
}

/// Some entry among the first `n` carries the name `nm`.
pub open spec fn name_among(es: Seq<Entry>, n: int, nm: Seq<u8>) -> bool {
    exists|j: int| #![trigger es[j]] 0 <= j < n && es[j].name@ == nm
}

/// An entry list that extends `base` without renaming anything, and whose
/// extra entries never carry `nm`, finds `nm` where `base` finds it.
proof fn lemma_find_same(cur: Seq<Entry>, base: Seq<Entry>, nm: Seq<u8>)
    requires
        cur.len() >= base.len(),
        forall|k: int| #![trigger cur[k]] 0 <= k < base.len() ==> cur[k].name@ == base[k].name@,
        forall|k: int| #![trigger cur[k]] base.len() <= k < cur.len() ==> cur[k].name@ != nm,
    ensures
        find_idx(cur, nm) == find_idx(base, nm),
{
    lemma_find_idx_props(base, nm);
    lemma_find_idx_props(cur, nm);
    let bi = find_idx(base, nm);
    if bi != -1 {
        lemma_find_idx_first(cur, nm, bi);
    } else {
        let ci = find_idx(cur, nm);
        if ci != -1 {
            assert(cur[ci].name@ == nm);
            if ci < base.len() {
                assert(base[ci].name@ != nm);
            }
            assert(false);
        }
    }
}

/// A destination that is absent or matches `base` position by position shows,
/// under one more name, exactly what the entry `base` finds there shows.
proof fn lemma_dest_child_obs(destv: Option<Node>, base: Seq<Entry>, nm: Seq<u8>, q: Seq<Seq<u8>>)
    requires
        match destv {
            None => base.len() == 0,
            Some(d) => d matches Node::Dir { entries } && entries_equiv(base, entries@),
        },
    ensures
        file_at_opt(destv, seq![nm] + q) == file_at_opt(find_entry(base, nm), q),
        dir_at_opt(destv, seq![nm] + q) == dir_at_opt(find_entry(base, nm), q),
        exists_at_opt(destv, seq![nm] + q) == exists_at_opt(find_entry(base, nm), q),
{
    lemma_find_idx_props(base, nm);
    let bi = find_idx(base, nm);
    match destv {
        None => {
            assert(bi == -1);
        },
        Some(d) => {
            match d {
                Node::Dir { entries: dv } => {
                    lemma_find_idx_pointwise(base, dv@, nm);
                    lemma_find_idx_props(dv@, nm);
                    lemma_lookup_child(d, nm, q);
                    if bi != -1 {
                        assert(same_tree(base[bi].node, dv@[bi].node));
                        assert(file_at(base[bi].node, q) == file_at(dv@[bi].node, q));
                        assert(dir_at(base[bi].node, q) == dir_at(dv@[bi].node, q));
                        assert(exists_at(base[bi].node, q) == exists_at(dv@[bi].node, q));
                    }
                },
                _ => {
                    assert(false);
                },
            }
        },
    }
}

/// Compatibility carries down to the child a name leads to, against what the
/// `base` picture of the destination holds under that name.
proof fn lemma_compat_to_child(
    src: Node,
    destv: Option<Node>,
    base: Seq<Entry>,
    nm: Seq<u8>,
    cs: Node,
)
    requires
        compatible_opt(src, destv),
        src matches Node::Dir { entries } && find_entry(entries@, nm) == Some(cs),
        match destv {
            None => base.len() == 0,
            Some(d) => d matches Node::Dir { entries } && entries_equiv(base, entries@),
        },
    ensures
        compatible_opt(cs, find_entry(base, nm)),
{
    lemma_find_idx_props(base, nm);
    let bi = find_idx(base, nm);
    if bi != -1 {
        match destv {
            Some(d) => {
                match d {
                    Node::Dir { entries: dv } => {
                        lemma_find_idx_pointwise(base, dv@, nm);
                        lemma_find_idx_props(dv@, nm);
                        let cd = dv@[bi].node;
                        lemma_compat_child(src, d, nm, cs, cd);
                        assert(same_tree(base[bi].node, cd));
                        lemma_same_tree_symm(base[bi].node, cd);
                        lemma_compat_equiv(cs, cd, base[bi].node);
                    },
                    _ => {
                        assert(false);
                    },
                }
            },
            None => {
                assert(false);
            },
        }
    }
}

/// One path's worth of the directory-merge argument: what the finished entry
/// list shows at `p`, related to the source and the destination.
proof fn lemma_dir_merge_at(
    src: Node,
    destv: Option<Node>,
    base: Seq<Entry>,
    curv: Vec<Entry>,
    interactive: bool,
    p: Seq<Seq<u8>>,
)
    requires
        src matches Node::Dir { .. },
        wf(src),
        match destv {
            None => base.len() == 0,
            Some(d) => d matches Node::Dir { entries } && entries_equiv(base, entries@),
        },
        curv@.len() >= base.len(),
        forall|k: int| #![trigger curv@[k]] 0 <= k < base.len() ==> curv@[k].name@ == base[k].name@,
        forall|k: int| #![trigger curv@[k]]
            base.len() <= k < curv@.len() ==> name_among(
                src->entries@,
                src->entries@.len() as int,
                curv@[k].name@,
            ),
        forall|k: int| #![trigger base[k]]
            0 <= k < base.len() && !name_among(
                src->entries@,
                src->entries@.len() as int,
                base[k].name@,
            ) ==> curv@[k] == base[k],
        forall|j: int| #![trigger src->entries@[j]]
            0 <= j < src->entries@.len() ==> {
                let nm = src->entries@[j].name@;
                let ci = find_idx(curv@, nm);
                &&& 0 <= ci < curv@.len()
                &&& merge_ok(
                    src->entries@[j].node,
                    find_entry(base, nm),
                    curv@[ci].node,
                    interactive,
                )
            },
    ensures
        !exists_at(src, p) ==> file_at(Node::Dir { entries: curv }, p) == file_at_opt(destv, p)
            && dir_at(Node::Dir { entries: curv }, p) == dir_at_opt(destv, p),
        !interactive ==> {
            &&& file_at(src, p) is Some ==> file_at(Node::Dir { entries: curv }, p) == file_at(
                src,
                p,
            )
            &&& dir_at(src, p) ==> dir_at(Node::Dir { entries: curv }, p)
            &&& !(file_at(src, p) is Some && dir_at_opt(destv, p)) && !(dir_at(src, p)
                && file_at_opt(destv, p) is Some)
        },
{
    let srcs = src->entries@;
    let out = Node::Dir { entries: curv };
    if p.len() == 0 {
        assert(lookup(src, p) == Some(src));
        assert(lookup(out, p) == Some(out));
        match destv {
            Some(d) => {
                assert(lookup(d, p) == Some(d));
                assert(file_at_opt(destv, p) is None);
            },
            None => {},
        }
    } else {
        let nm = p[0];
        let q = p.skip(1);
        lemma_path_uncons(p);
        assert(p == seq![nm] + q);
        lemma_find_idx_props(srcs, nm);
        lemma_find_idx_props(curv@, nm);
        lemma_dest_child_obs(destv, base, nm, q);
        let si = find_idx(srcs, nm);
        if si != -1 {
            let cs = srcs[si].node;
            assert(find_entry(srcs, nm) == Some(cs));
            lemma_lookup_child(src, nm, q);
            assert(lookup(src, p) == lookup(cs, q));
            let ci = find_idx(curv@, nm);
            assert(0 <= ci < curv@.len());
            let co = curv@[ci].node;
            assert(find_entry(curv@, nm) == Some(co));
            lemma_lookup_child(out, nm, q);
            assert(lookup(out, p) == lookup(co, q));
            let bd = find_entry(base, nm);
            assert(merge_ok(cs, bd, co, interactive));
            if !exists_at(src, p) {
                assert(!exists_at(cs, q));
                assert(file_at(co, q) == file_at_opt(bd, q));
                assert(dir_at(co, q) == dir_at_opt(bd, q));
            }
            if !interactive {
                if file_at(src, p) is Some {
                    assert(file_at(cs, q) is Some);
                    assert(file_at(co, q) == file_at(cs, q));
                }
                if dir_at(src, p) {
                    assert(dir_at(cs, q));
                    assert(dir_at(co, q));
                }
                assert(compatible_opt(cs, bd));
                match bd {
                    Some(b) => {
                        assert(!(file_at(cs, q) is Some && dir_at(b, q)) && !(dir_at(cs, q)
                            && file_at(b, q) is Some));
                    },
                    None => {},
                }
            }
        } else {
            assert(lookup(src, p) is None);
            assert forall|k: int| base.len() <= k < curv@.len() implies #[trigger] curv@[k].name@
                != nm by {
                let j = choose|j: int|
                    0 <= j < srcs.len() && #[trigger] srcs[j].name@ == curv@[k].name@;
                assert(srcs[j].name@ == curv@[k].name@);
            }
            lemma_find_same(curv@, base, nm);
            lemma_find_idx_props(base, nm);
            let bi = find_idx(base, nm);
            if bi == -1 {
                assert(lookup(out, p) is None);
            } else {
                assert(base[bi].name@ == nm);
                if name_among(srcs, srcs.len() as int, nm) {
                    let j = choose|j: int| 0 <= j < srcs.len() && #[trigger] srcs[j].name@ == nm;
                    assert(false);
                }
                assert(curv@[bi] == base[bi]);
                assert(find_entry(curv@, nm) == Some(base[bi].node));
                lemma_lookup_child(out, nm, q);
                assert(lookup(out, p) == lookup(base[bi].node, q));
            }
        }
    }
}

/// The finished directory merge meets the copy guarantee.
proof fn lemma_dir_merge(
    src: Node,
    destv: Option<Node>,
    base: Seq<Entry>,
    curv: Vec<Entry>,
    interactive: bool,
)
    requires
        src matches Node::Dir { .. },
        wf(src),
        match destv {
            None => base.len() == 0,
            Some(d) => d matches Node::Dir { entries } && entries_equiv(base, entries@),
        },
        curv@.len() >= base.len(),
        forall|k: int| #![trigger curv@[k]] 0 <= k < base.len() ==> curv@[k].name@ == base[k].name@,
        forall|k: int| #![trigger curv@[k]]
            base.len() <= k < curv@.len() ==> name_among(
                src->entries@,
                src->entries@.len() as int,
                curv@[k].name@,
            ),
        forall|k: int| #![trigger base[k]]
            0 <= k < base.len() && !name_among(
                src->entries@,
                src->entries@.len() as int,
                base[k].name@,
            ) ==> curv@[k] == base[k],
        forall|j: int| #![trigger src->entries@[j]]
            0 <= j < src->entries@.len() ==> {
                let nm = src->entries@[j].name@;
                let ci = find_idx(curv@, nm);
                &&& 0 <= ci < curv@.len()
                &&& merge_ok(
                    src->entries@[j].node,
                    find_entry(base, nm),
                    curv@[ci].node,
                    interactive,
                )
            },
    ensures
        merge_ok(src, destv, Node::Dir { entries: curv }, interactive),
{
    let out = Node::Dir { entries: curv };
    assert forall|p: Seq<Seq<u8>>| #![trigger file_at(out, p)]
        !exists_at(src, p) implies file_at(out, p) == file_at_opt(destv, p) by {
        lemma_dir_merge_at(src, destv, base, curv, interactive, p);
    }
    assert forall|p: Seq<Seq<u8>>| #![trigger dir_at(out, p)]
        !exists_at(src, p) implies dir_at(out, p) == dir_at_opt(destv, p) by {
        lemma_dir_merge_at(src, destv, base, curv, interactive, p);
    }
    if !interactive {
        assert forall|p: Seq<Seq<u8>>| #![trigger file_at(src, p)]
            file_at(src, p) is Some implies file_at(out, p) == file_at(src, p) by {
            lemma_dir_merge_at(src, destv, base, curv, interactive, p);
        }
        assert forall|p: Seq<Seq<u8>>| #![trigger dir_at(src, p)]
            dir_at(src, p) implies dir_at(out, p) by {
            lemma_dir_merge_at(src, destv, base, curv, interactive, p);
        }
        match destv {
            Some(d) => {
                assert forall|p: Seq<Seq<u8>>|
                    #![trigger lookup(src, p), lookup(d, p)]
                    !(file_at(src, p) is Some && dir_at(d, p)) && !(dir_at(src, p) && file_at(
                        d,
                        p,
                    ) is Some) by {
                    lemma_dir_merge_at(src, destv, base, curv, interactive, p);
                }
                assert(compatible(src, d));
            },
            None => {},
        }
    }
}

/// Replacing the merged child under one source name keeps every invariant of
/// the merge loop.
proof fn lemma_step_update(
    srcs: Seq<Entry>,
    base: Seq<Entry>,
    old_cur: Seq<Entry>,
    new_cur: Seq<Entry>,
    i: int,
    ci: int,
    ge: Entry,
    interactive: bool,
)
    requires
        distinct_names(srcs),
        0 <= i < srcs.len(),
        ge.name@ == srcs[i].name@,
        ci == find_idx(old_cur, srcs[i].name@),
        ci == find_idx(base, srcs[i].name@),
        0 <= ci < base.len(),
        base.len() <= old_cur.len(),
        old_cur[ci] == base[ci],
        new_cur == old_cur.update(ci, ge),
        forall|k: int| #![trigger old_cur[k]]
            0 <= k < base.len() ==> old_cur[k].name@ == base[k].name@,
        forall|k: int| #![trigger old_cur[k]]
            base.len() <= k < old_cur.len() ==> name_among(srcs, i, old_cur[k].name@),
        forall|k: int| #![trigger base[k]]
            0 <= k < base.len() && !name_among(srcs, i, base[k].name@) ==> old_cur[k] == base[k],
        forall|j: int| #![trigger srcs[j]]
            0 <= j < i ==> {
                let nm = srcs[j].name@;
                let cj = find_idx(old_cur, nm);
                &&& 0 <= cj < old_cur.len()
                &&& merge_ok(srcs[j].node, find_entry(base, nm), old_cur[cj].node, interactive)
            },
        merge_ok(srcs[i].node, find_entry(base, srcs[i].name@), ge.node, interactive),
    ensures
        new_cur.len() == old_cur.len(),
        forall|k: int| #![trigger new_cur[k]]
            0 <= k < base.len() ==> new_cur[k].name@ == base[k].name@,
        forall|k: int| #![trigger new_cur[k]]
            base.len() <= k < new_cur.len() ==> name_among(srcs, i + 1, new_cur[k].name@),
        forall|k: int| #![trigger base[k]]
            0 <= k < base.len() && !name_among(srcs, i + 1, base[k].name@) ==> new_cur[k]
                == base[k],
        forall|j: int| #![trigger srcs[j]]
            0 <= j < i + 1 ==> {
                let nm = srcs[j].name@;
                let cj = find_idx(new_cur, nm);
                &&& 0 <= cj < new_cur.len()
                &&& merge_ok(srcs[j].node, find_entry(base, nm), new_cur[cj].node, interactive)
            },
{
    let nm = srcs[i].name@;
    lemma_find_idx_props(base, nm);
    assert(base[ci].name@ == nm);
    assert forall|k: int| base.len() <= k < new_cur.len() implies name_among(
        srcs,
        i + 1,
        #[trigger] new_cur[k].name@,
    ) by {
        assert(new_cur[k] == old_cur[k]);
        let j = choose|j: int| #![trigger srcs[j]] 0 <= j < i && srcs[j].name@ == old_cur[k].name@;
        assert(0 <= j < i + 1 && srcs[j].name@ == new_cur[k].name@);
    }
    assert forall|k: int|
        0 <= k < base.len() && !name_among(srcs, i + 1, #[trigger] base[k].name@) implies new_cur[k]
        == base[k] by {
        assert(srcs[i].name@ == nm);
        if k == ci {
            assert(name_among(srcs, i + 1, base[k].name@));
        } else {
            if name_among(srcs, i, base[k].name@) {
                let j = choose|j: int|
                    #![trigger srcs[j]]
                    0 <= j < i && srcs[j].name@ == base[k].name@;
                assert(name_among(srcs, i + 1, base[k].name@));
            }
            assert(old_cur[k] == base[k]);
            assert(new_cur[k] == old_cur[k]);
        }
    }
    assert forall|j: int| 0 <= j < i + 1 implies {
        let nmj = (#[trigger] srcs[j]).name@;
        let cj = find_idx(new_cur, nmj);
        &&& 0 <= cj < new_cur.len()
        &&& merge_ok(srcs[j].node, find_entry(base, nmj), new_cur[cj].node, interactive)
    } by {
        let nmj = srcs[j].name@;
        assert forall|k: int| 0 <= k < new_cur.len() implies #[trigger] new_cur[k].name@
            == old_cur[k].name@ by {
            if k != ci {
                assert(new_cur[k] == old_cur[k]);
            }
        }
        lemma_find_idx_pointwise(new_cur, old_cur, nmj);
        let cj = find_idx(old_cur, nmj);
        if j < i {
            lemma_find_idx_props(old_cur, nmj);
            assert(0 <= cj < old_cur.len());
            assert(old_cur[cj].name@ == nmj);
            assert(old_cur[ci].name@ == nm);
            assert(nmj != nm);
            assert(cj != ci);
            assert(new_cur[cj] == old_cur[cj]);
        } else {
            assert(cj == ci);
            assert(new_cur[ci] == ge);
        }
    }
}

/// Appending the merged child under a fresh source name keeps every
/// invariant of the merge loop.
proof fn lemma_step_push(
    srcs: Seq<Entry>,
    base: Seq<Entry>,
    old_cur: Seq<Entry>,
    new_cur: Seq<Entry>,
    i: int,
    ge: Entry,
    interactive: bool,
)
    requires
        distinct_names(srcs),
        0 <= i < srcs.len(),
        ge.name@ == srcs[i].name@,
        find_idx(old_cur, srcs[i].name@) == -1,
        find_idx(base, srcs[i].name@) == -1,
        base.len() <= old_cur.len(),
        new_cur == old_cur.push(ge),
        forall|k: int| #![trigger old_cur[k]]
            0 <= k < base.len() ==> old_cur[k].name@ == base[k].name@,
        forall|k: int| #![trigger old_cur[k]]
            base.len() <= k < old_cur.len() ==> name_among(srcs, i, old_cur[k].name@),
        forall|k: int| #![trigger base[k]]
            0 <= k < base.len() && !name_among(srcs, i, base[k].name@) ==> old_cur[k] == base[k],
        forall|j: int| #![trigger srcs[j]]
            0 <= j < i ==> {
                let nm = srcs[j].name@;
                let cj = find_idx(old_cur, nm);
                &&& 0 <= cj < old_cur.len()
                &&& merge_ok(srcs[j].node, find_entry(base, nm), old_cur[cj].node, interactive)
            },
        merge_ok(srcs[i].node, find_entry(base, srcs[i].name@), ge.node, interactive),
    ensures
        new_cur.len() == old_cur.len() + 1,
        forall|k: int| #![trigger new_cur[k]]
            0 <= k < base.len() ==> new_cur[k].name@ == base[k].name@,
        forall|k: int| #![trigger new_cur[k]]
            base.len() <= k < new_cur.len() ==> name_among(srcs, i + 1, new_cur[k].name@),
        forall|k: int| #![trigger base[k]]
            0 <= k < base.len() && !name_among(srcs, i + 1, base[k].name@) ==> new_cur[k]
                == base[k],
        forall|j: int| #![trigger srcs[j]]
            0 <= j < i + 1 ==> {
                let nm = srcs[j].name@;
                let cj = find_idx(new_cur, nm);
                &&& 0 <= cj < new_cur.len()
                &&& merge_ok(srcs[j].node, find_entry(base, nm), new_cur[cj].node, interactive)
            },
{
    let nm = srcs[i].name@;
    lemma_find_idx_props(old_cur, nm);
    assert forall|k: int| base.len() <= k < new_cur.len() implies name_among(
        srcs,
        i + 1,
        #[trigger] new_cur[k].name@,
    ) by {
        if k < old_cur.len() {
            assert(new_cur[k] == old_cur[k]);
            let j = choose|j: int|
                #![trigger srcs[j]]
                0 <= j < i && srcs[j].name@ == old_cur[k].name@;
            assert(0 <= j < i + 1 && srcs[j].name@ == new_cur[k].name@);
        } else {
            assert(new_cur[k] == ge);
            assert(0 <= i < i + 1 && srcs[i].name@ == nm);
        }
    }
    assert forall|k: int|
        0 <= k < base.len() && !name_among(srcs, i + 1, #[trigger] base[k].name@) implies new_cur[k]
        == base[k] by {
        if name_among(srcs, i, base[k].name@) {
            let j = choose|j: int| #![trigger srcs[j]] 0 <= j < i && srcs[j].name@ == base[k].name@;
            assert(name_among(srcs, i + 1, base[k].name@));
        }
        assert(old_cur[k] == base[k]);
        assert(new_cur[k] == old_cur[k]);
    }
    assert forall|j: int| 0 <= j < i + 1 implies {
        let nmj = (#[trigger] srcs[j]).name@;
        let cj = find_idx(new_cur, nmj);
        &&& 0 <= cj < new_cur.len()
        &&& merge_ok(srcs[j].node, find_entry(base, nmj), new_cur[cj].node, interactive)
    } by {
        let nmj = srcs[j].name@;
        if j < i {
            assert(nmj != nm);
            assert forall|k: int| old_cur.len() <= k < new_cur.len() implies #[trigger] new_cur[k].name@
                != nmj by {
                assert(new_cur[k] == ge);
            }
            assert forall|k: int| 0 <= k < old_cur.len() implies #[trigger] new_cur[k].name@
                == old_cur[k].name@ by {
                assert(new_cur[k] == old_cur[k]);
            }
            lemma_find_same(new_cur, old_cur, nmj);
            let cj = find_idx(old_cur, nmj);
            lemma_find_idx_props(old_cur, nmj);
            assert(new_cur[cj] == old_cur[cj]);
        } else {
            assert forall|k: int| 0 <= k < old_cur.len() implies #[trigger] new_cur[k].name@
                != nm by {
                assert(new_cur[k] == old_cur[k]);
            }
            assert(new_cur[old_cur.len() as int] == ge);
            lemma_find_idx_first(new_cur, nm, old_cur.len() as int);
        }
    }
}

/// Copy `src` over `dest`, producing the new destination tree, the position
/// after the consumed answers, and the notices, exactly as one run of the
/// copy would: prompting per existing destination before each file write,
/// stopping at the first conflict, and reporting each directory after its
/// children.
#[verifier::loop_isolation(false)]
#[verifier::rlimit(60)]
pub fn copy_node(
    src: &Node,
    dest: Option<&Node>,
    opts: &Options,
    answers: &Vec<Vec<u8>>,
    ai: usize,
    src_path: &Vec<Vec<u8>>,
    dest_path: &Vec<Vec<u8>>,
) -> (r: CopyStep)
    requires
        wf(*src),
        ai <= answers@.len(),
    ensures
        ai <= r.next_answer <= answers@.len(),
        !opts.interactive ==> r.next_answer == ai,
        compatible_opt(*src, opt_deref(dest)) ==> r.result is Ok,
        r.result matches Ok(out) ==> merge_ok(*src, opt_deref(dest), out, opts.interactive),
        forall|k: int| #![trigger r.log@[k]]
            0 <= k < r.log@.len() ==> (opts.verbose || r.log@[k] is NotOverwriting) && (
            opts.interactive || !(r.log@[k] is NotOverwriting)),
        src matches Node::File { .. } ==> {
            let asked = opts.interactive && dest is Some;
            let turned_down = asked && !confirms(answers@, ai as int);
            &&& r.next_answer as int == (if asked && (ai as int) < answers@.len() {
                ai + 1
            } else {
                ai as int
            })
            &&& turned_down ==> {
                &&& r.result matches Ok(out) && same_tree_opt(Some(out), opt_deref(dest))
                &&& r.log@.len() == 1
                &&& r.log@[0] matches Notice::NotOverwriting { dest: d } && paths_match(
                    d@,
                    dest_path@,
                )
            }
            &&& !turned_down ==> {
                &&& (opt_deref(dest) matches Some(d) && d is Dir) ==> r.result is Err
                &&& !(opt_deref(dest) matches Some(d) && d is Dir) ==> {
                    &&& r.result matches Ok(out) && plain_file_copy(*src, out)
                    &&& r.log@.len() == (if opts.verbose {
                        1int
                    } else {
                        0int
                    })
                    &&& opts.verbose ==> {
                        &&& r.log@[0] matches Notice::CopiedFile { src: s, dest: d }
                        &&& paths_match(s@, src_path@)
                        &&& paths_match(d@, dest_path@)
                    }
                }
            }
        },
        src matches Node::Dir { .. } && opts.verbose && r.result is Ok ==> {
            &&& r.log@.len() >= 1
            &&& r.log@.last() matches Notice::CopiedDir { src: s, dest: d }
            &&& paths_match(s@, src_path@)
            &&& paths_match(d@, dest_path@)
        },
    decreases *src,
{
    match src {
        Node::File { data } => {
            let mut log: Vec<Notice> = Vec::new();
            let mut ai2: usize = ai;
            let dest_exists = dest.is_some();
            if opts.interactive && dest_exists {
                let confirmed: bool = if ai < answers.len() {
                    ai2 = ai + 1;
                    answer_is_yes(&answers[ai])
                } else {
                    false
                };
                if !confirmed {
                    log.push(Notice::NotOverwriting { dest: clone_path(dest_path) });
                    let kept = match dest {
                        Some(d) => clone_node(d),
                        // not reachable: the prompt fires only when a
                        // destination exists
                        None => Node::File { data: clone_bytes(data) },
                    };
                    proof {
                        let destv = opt_deref(dest);
                        let d = destv->0;
                        assert(same_tree(kept, d));
                        assert forall|p: Seq<Seq<u8>>| #![trigger file_at(kept, p)]
                            !exists_at(*src, p) implies file_at(kept, p) == file_at_opt(
                            destv,
                            p,
                        ) by {
                            assert(file_at(kept, p) == file_at(d, p));
                        }
                        assert forall|p: Seq<Seq<u8>>| #![trigger dir_at(kept, p)]
                            !exists_at(*src, p) implies dir_at(kept, p) == dir_at_opt(destv, p) by {
                            assert(dir_at(kept, p) == dir_at(d, p));
                        }
                    }
                    return CopyStep { result: Ok(kept), next_answer: ai2, log };
                }
            }
            match dest {
                Some(d) => {
                    if is_dir_node(d) {
                        proof {
                            let dv = *d;
                            assert(lookup(*src, Seq::<Seq<u8>>::empty()) == Some(*src));
                            assert(lookup(dv, Seq::<Seq<u8>>::empty()) == Some(dv));
                            assert(file_at(*src, Seq::<Seq<u8>>::empty()) is Some);
                            assert(dir_at(dv, Seq::<Seq<u8>>::empty()));
                            assert(!compatible(*src, dv));
                        }
                        return CopyStep {
                            result: Err(
                                CopyError {
                                    source: clone_path(src_path),
                                    dest: clone_path(dest_path),
                                },
                            ),
                            next_answer: ai2,
                            log,
                        };
                    }
                },
                None => {},
            }
            let copied = Node::File { data: clone_bytes(data) };
            if opts.verbose {
                log.push(
                    Notice::CopiedFile { src: clone_path(src_path), dest: clone_path(dest_path) },
                );
            }
            proof {
                let destv = opt_deref(dest);
                lemma_same_tree_file(copied->data, *data);
                assert(same_tree(copied, *src));
                assert forall|p: Seq<Seq<u8>>| #![trigger dir_at(*src, p)] !dir_at(*src, p) by {
                    if p.len() == 0 {
                    }
                }
                assert forall|p: Seq<Seq<u8>>| #![trigger file_at(*src, p)]
                    file_at(*src, p) is Some implies file_at(copied, p) == file_at(*src, p) by {
                    assert(file_at(copied, p) == file_at(*src, p));
                }
                match destv {
                    Some(d) => {
                        assert forall|p: Seq<Seq<u8>>|
                            #![trigger lookup(*src, p), lookup(d, p)]
                            !(file_at(*src, p) is Some && dir_at(d, p)) && !(dir_at(*src, p)
                                && file_at(d, p) is Some) by {
                            if p.len() == 0 {
                                assert(lookup(d, p) == Some(d));
                                assert(!dir_at(d, p));
                            } else {
                                assert(lookup(*src, p) is None);
                            }
                        }
                        assert(compatible(*src, d));
                    },
                    None => {},
                }
                assert forall|p: Seq<Seq<u8>>| #![trigger file_at(copied, p)]
                    !exists_at(*src, p) implies file_at(copied, p) == file_at_opt(destv, p) by {
                    assert(p.len() > 0);
                    assert(lookup(copied, p) is None);
                    match destv {
                        Some(d) => {
                            assert(lookup(d, p) is None);
                        },
                        None => {},
                    }
                }
                assert forall|p: Seq<Seq<u8>>| #![trigger dir_at(copied, p)]
                    !exists_at(*src, p) implies dir_at(copied, p) == dir_at_opt(destv, p) by {
                    assert(p.len() > 0);
                    assert(lookup(copied, p) is None);
                    match destv {
                        Some(d) => {
                            assert(lookup(d, p) is None);
                        },
                        None => {},
                    }
                }
            }
            CopyStep { result: Ok(copied), next_answer: ai2, log }
        },
        Node::Dir { entries } => {
            let ghost srcs: Seq<Entry> = entries@;
            let ghost destv: Option<Node> = opt_deref(dest);
            proof {
                assert(lookup(*src, Seq::<Seq<u8>>::empty()) == Some(*src));
                assert(distinct_names(srcs));
            }
            let mut cur: Vec<Entry>;
            match dest {
                Some(d) => {
                    match d {
                        Node::File { .. } => {
                            proof {
                                assert(lookup(*d, Seq::<Seq<u8>>::empty()) == Some(*d));
                                assert(dir_at(*src, Seq::<Seq<u8>>::empty()));
                                assert(file_at(*d, Seq::<Seq<u8>>::empty()) is Some);
                                assert(!compatible(*src, *d));
                            }
                            return CopyStep {
                                result: Err(
                                    CopyError {
                                        source: clone_path(src_path),
                                        dest: clone_path(dest_path),
                                    },
                                ),
                                next_answer: ai,
                                log: Vec::new(),
                            };
                        },
                        Node::Dir { entries: de } => {
                            cur = clone_dir_entries(de);
                        },
                    }
                },
                None => {
                    cur = Vec::new();
                },
            }
            let ghost base: Seq<Entry> = cur@;
            let mut ai2: usize = ai;
            let mut log: Vec<Notice> = Vec::new();
            let mut i: usize = 0;
            while i < entries.len()
                invariant
                    i <= srcs.len(),
                    ai <= ai2 <= answers@.len(),
                    !opts.interactive ==> ai2 == ai,
                    cur@.len() >= base.len(),
                    forall|k: int| #![trigger cur@[k]]
                        0 <= k < base.len() ==> cur@[k].name@ == base[k].name@,
                    forall|k: int| #![trigger cur@[k]]
                        base.len() <= k < cur@.len() ==> name_among(srcs, i as int, cur@[k].name@),
                    forall|k: int| #![trigger base[k]]
                        0 <= k < base.len() && !name_among(srcs, i as int, base[k].name@)
                            ==> cur@[k] == base[k],
                    forall|j: int| #![trigger srcs[j]]
                        0 <= j < i ==> {
                            let nm = srcs[j].name@;
                            let cj = find_idx(cur@, nm);
                            &&& 0 <= cj < cur@.len()
                            &&& merge_ok(
                                srcs[j].node,
                                find_entry(base, nm),
                                cur@[cj].node,
                                opts.interactive,
                            )
                        },
                    forall|k: int| #![trigger log@[k]]
                        0 <= k < log@.len() ==> (opts.verbose || log@[k] is NotOverwriting) && (
                        opts.interactive || !(log@[k] is NotOverwriting)),
                decreases srcs.len() - i,
            {
                let name: &Vec<u8> = &entries[i].name;
                let ghost nm: Seq<u8> = name@;
                proof {
                    assert forall|k: int| base.len() <= k < cur@.len() implies #[trigger] cur@[k].name@
                        != nm by {
                        let j = choose|j: int|
                            #![trigger srcs[j]]
                            0 <= j < i && srcs[j].name@ == cur@[k].name@;
                        assert(srcs[j].name@ != srcs[i as int].name@);
                    }
                    lemma_find_same(cur@, base, nm);
                    lemma_find_idx_props(base, nm);
                    lemma_find_idx_props(cur@, nm);
                    assert forall|j: int| 0 <= j < i implies (#[trigger] srcs[j]).name@ != nm by {
                        assert(srcs[j].name@ != srcs[i as int].name@);
                    }
                    lemma_find_idx_first(srcs, nm, i as int);
                    lemma_wf_child(*src, nm, srcs[i as int].node);
                    if find_idx(base, nm) != -1 {
                        if name_among(srcs, i as int, nm) {
                            let j = choose|j: int|
                                #![trigger srcs[j]]
                                0 <= j < i && srcs[j].name@ == nm;
                            assert(false);
                        }
                        assert(base[find_idx(base, nm)].name@ == nm);
                        assert(cur@[find_idx(base, nm)] == base[find_idx(base, nm)]);
                    }
                    let m: Node = *src;
                    assert(decreases_to!(m => m->entries));
                    assert(decreases_to!(m->entries => m->entries[i as int]));
                    assert(decreases_to!(m => m->entries[i as int].node));
                    assert(m->entries[i as int].node == entries@[i as int].node);
                }
                let child_src: &Node = &entries[i].node;
                let csp = push_component(src_path, name);
                let cdp = push_component(dest_path, name);
                let found = find(&cur, name);
                let step = match found {
                    Some(ci) => {
                        proof {
                            assert(find_idx(cur@, nm) == ci as int);
                            assert((ci as int) < cur@.len());
                            assert(cur@[ci as int].node == base[ci as int].node);
                            assert(find_entry(base, nm) == Some(base[ci as int].node));
                        }
                        copy_node(child_src, Some(&cur[ci].node), opts, answers, ai2, &csp, &cdp)
                    },
                    None => {
                        proof {
                            assert(find_entry(base, nm) is None);
                        }
                        copy_node(child_src, None, opts, answers, ai2, &csp, &cdp)
                    },
                };
                let CopyStep { result: sres, next_answer: snext, log: mut step_log } = step;
                ai2 = snext;
                let ghost slog: Seq<Notice> = step_log@;
                let ghost old_log: Seq<Notice> = log@;
                log.append(&mut step_log);
                proof {
                    assert(log@ == old_log + slog);
                    assert forall|k: int| 0 <= k < log@.len() implies (opts.verbose
                        || #[trigger] log@[k] is NotOverwriting) && (opts.interactive || !(
                    log@[k] is NotOverwriting)) by {
                        if k < old_log.len() {
                            assert(log@[k] == old_log[k]);
                        } else {
                            assert(log@[k] == slog[k - old_log.len()]);
                        }
                    }
                }
                match sres {
                    Ok(newchild) => {
                        let nm_vec = clone_bytes(name);
                        let new_entry = Entry { name: nm_vec, node: newchild };
                        let ghost ge: Entry = new_entry;
                        let ghost old_cur: Seq<Entry> = cur@;
                        match found {
                            Some(ci) => {
                                cur[ci] = new_entry;
                                proof {
                                    assert(cur@ == old_cur.update(ci as int, ge));
                                    lemma_step_update(
                                        srcs,
                                        base,
                                        old_cur,
                                        cur@,
                                        i as int,
                                        ci as int,
                                        ge,
                                        opts.interactive,
                                    );
                                }
                            },
                            None => {
                                cur.push(new_entry);
                                proof {
                                    assert(cur@ == old_cur.push(ge));
                                    lemma_step_push(
                                        srcs,
                                        base,
                                        old_cur,
                                        cur@,
                                        i as int,
                                        ge,
                                        opts.interactive,
                                    );
                                }
                            },
                        }
                    },
                    Err(e) => {
                        proof {
                            if compatible_opt(*src, destv) {
                                lemma_compat_to_child(*src, destv, base, nm, srcs[i as int].node);
                                assert(false);
                            }
                        }
                        return CopyStep { result: Err(e), next_answer: ai2, log };
                    },
                }
                i += 1;
            }
            if opts.verbose {
                log.push(
                    Notice::CopiedDir { src: clone_path(src_path), dest: clone_path(dest_path) },
                );
            }
            proof {
                lemma_dir_merge(*src, destv, base, cur, opts.interactive);
            }
            CopyStep { result: Ok(Node::Dir { entries: cur }), next_answer: ai2, log }
        },
    }
}

/// Law: mirroring. After a copy without interaction succeeds, every path
/// that leads to a file in the source leads to a file with identical bytes
/// in the result, and every path that leads to a directory in the source is
/// a directory in the result: the nesting structure carries over whole.
pub proof fn lemma_mirroring(src: Node, dest: Option<Node>, out: Node, p: Seq<Seq<u8>>)
    requires
        merge_ok(src, dest, out, false),
    ensures
        file_at(src, p) is Some ==> file_at(out, p) == file_at(src, p),
        dir_at(src, p) ==> dir_at(out, p),
{
}

/// Law: a copy never reaches beyond its source. Whatever the interaction,
/// a path the source does not hold shows in the result exactly what the
/// destination held there before: the copy adds and overwrites, it never
/// deletes.
pub proof fn lemma_destination_preserved(
    src: Node,
    dest: Option<Node>,
    out: Node,
    interactive: bool,
    p: Seq<Seq<u8>>,
)
    requires
        merge_ok(src, dest, out, interactive),
        !exists_at(src, p),
    ensures
        file_at(out, p) == file_at_opt(dest, p),
        dir_at(out, p) == dir_at_opt(dest, p),
{
}

/// Law: a plain copy is faithful under chaining. Copying file `a` yields `b`
/// holding `a`'s bytes, and copying `b` in turn yields `c` still holding
/// exactly `a`'s bytes, whatever the content — empty and binary alike.
pub proof fn lemma_plain_copy_chain(a: Node, b: Node, c: Node)
    requires
        plain_file_copy(a, b),
        plain_file_copy(b, c),
    ensures
        plain_file_copy(a, c),
        c matches Node::File { data: cd } && a matches Node::File { data: ad } && cd@ == ad@,
{
}

/// A fresh entry list matching `de` position by position.
fn clone_dir_entries(de: &Vec<Entry>) -> (r: Vec<Entry>)
    ensures
        entries_equiv(r@, de@),
{
    let mut out: Vec<Entry> = Vec::new();
    let mut i: usize = 0;
    while i < de.len()
        invariant
            i <= de@.len(),
            out@.len() == i,
            forall|k: int| #![trigger out@[k]]
                0 <= k < i ==> out@[k].name@ == de@[k].name@ && same_tree(
                    out@[k].node,
                    de@[k].node,
                ),
        decreases de@.len() - i,
    {
        let name = clone_bytes(&de[i].name);
        let node = clone_node(&de[i].node);
        out.push(Entry { name, node });
        i += 1;
    }
    out
}

} // verus!
