//! A file-system tree modelled as plain data: a file with its bytes, or a
//! directory with a list of named children. Every statement about copying is
//! made through the observation functions `lookup`, `file_at` and `dir_at`,
//! which read a tree at a path given as a list of name components.

use vstd::prelude::*;

verus! {

broadcast use vstd::std_specs::vec::group_vec_axioms;

/// One child of a directory: a name and the node it leads to.
#[derive(Debug, PartialEq, Eq)]
pub struct Entry {
    pub name: Vec<u8>,
    pub node: Node,
}

/// A file with its bytes, or a directory with its children.
#[derive(Debug, PartialEq, Eq)]
pub enum Node {
    File { data: Vec<u8> },
    Dir { entries: Vec<Entry> },
}

/// Index of the first entry named `name`, or -1 when there is none.
pub open spec fn find_idx(es: Seq<Entry>, name: Seq<u8>) -> int
    decreases es.len(),
{
    if es.len() == 0 {
        -1
    } else if es[0].name@ == name {
        0
    } else {
        let r = find_idx(es.skip(1), name);
        if r == -1 {
            -1
        } else {
            r + 1
        }
    }
}

/// The node of the first entry named `name`, if any.
pub open spec fn find_entry(es: Seq<Entry>, name: Seq<u8>) -> Option<Node> {
    let i = find_idx(es, name);
    if i == -1 {
        None
    } else {
        Some(es[i].node)
    }
}

/// The node a path leads to, reading one name component at a time.
pub open spec fn lookup(n: Node, path: Seq<Seq<u8>>) -> Option<Node>
    decreases path.len(),
{
    if path.len() == 0 {
        Some(n)
    } else {
        match n {
            Node::File { .. } => None,
            Node::Dir { entries } => match find_entry(entries@, path[0]) {
                Some(child) => lookup(child, path.skip(1)),
                None => None,
            },
        }
    }
}

/// The bytes of the file a path leads to, if it leads to a file.
pub open spec fn file_at(n: Node, p: Seq<Seq<u8>>) -> Option<Seq<u8>> {
    match lookup(n, p) {
        Some(Node::File { data }) => Some(data@),
        _ => None,
    }
}

/// Whether the path leads to a directory.
pub open spec fn dir_at(n: Node, p: Seq<Seq<u8>>) -> bool {
    lookup(n, p) matches Some(Node::Dir { .. })
}

/// Whether the path leads to anything.
pub open spec fn exists_at(n: Node, p: Seq<Seq<u8>>) -> bool {
    lookup(n, p) is Some
}

/// `file_at`, on an optional tree.
pub open spec fn file_at_opt(d: Option<Node>, p: Seq<Seq<u8>>) -> Option<Seq<u8>> {
    match d {
        Some(n) => file_at(n, p),
        None => None,
    }
}

/// `dir_at`, on an optional tree.
pub open spec fn dir_at_opt(d: Option<Node>, p: Seq<Seq<u8>>) -> bool {
    match d {
        Some(n) => dir_at(n, p),
        None => false,
    }
}

/// `exists_at`, on an optional tree.
pub open spec fn exists_at_opt(d: Option<Node>, p: Seq<Seq<u8>>) -> bool {
    match d {
        Some(n) => exists_at(n, p),
        None => false,
    }
}

/// No two entries share a name.
pub open spec fn distinct_names(es: Seq<Entry>) -> bool {
    forall|i: int, j: int|
        0 <= i < es.len() && 0 <= j < es.len() && i != j ==> es[i].name@ != es[j].name@
}

/// A well-formed tree: every directory in it has distinct child names.
pub open spec fn wf(n: Node) -> bool {
    forall|p: Seq<Seq<u8>>|
        #![trigger lookup(n, p)]
        match lookup(n, p) {
            Some(Node::Dir { entries }) => distinct_names(entries@),
            _ => true,
        }
}

/// Two trees that no observation can tell apart.
pub open spec fn same_tree(a: Node, b: Node) -> bool {
    &&& forall|p: Seq<Seq<u8>>| #![trigger file_at(a, p)] file_at(a, p) == file_at(b, p)
    &&& forall|p: Seq<Seq<u8>>| #![trigger dir_at(a, p)] dir_at(a, p) == dir_at(b, p)
    &&& forall|p: Seq<Seq<u8>>| #![trigger exists_at(a, p)] exists_at(a, p) == exists_at(b, p)
}

/// `same_tree`, on optional trees.
pub open spec fn same_tree_opt(a: Option<Node>, b: Option<Node>) -> bool {
    match (a, b) {
        (Some(x), Some(y)) => same_tree(x, y),
        (None, None) => true,
        _ => false,
    }
}

/// No path holds a file on one side and a directory on the other: every
/// write the copy will attempt can succeed.
pub open spec fn compatible(src: Node, dest: Node) -> bool {
    forall|p: Seq<Seq<u8>>|
        #![trigger lookup(src, p), lookup(dest, p)]
        !(file_at(src, p) is Some && dir_at(dest, p)) && !(dir_at(src, p) && file_at(
            dest,
            p,
        ) is Some)
}

/// `compatible`, against an optional destination; a missing destination
/// conflicts with nothing.
pub open spec fn compatible_opt(src: Node, dest: Option<Node>) -> bool {
    match dest {
        Some(d) => compatible(src, d),
        None => true,
    }
}

/// The tree behind an optional reference.
pub open spec fn opt_deref(d: Option<&Node>) -> Option<Node> {
    match d {
        Some(n) => Some(*n),
        None => None,
    }
}

/// Entry lists of equal length whose names match position by position and
/// whose nodes no observation can tell apart.
pub open spec fn entries_equiv(a: Seq<Entry>, b: Seq<Entry>) -> bool {
    &&& a.len() == b.len()
    &&& forall|k: int|
        #![trigger a[k]]
        0 <= k < a.len() ==> a[k].name@ == b[k].name@ && same_tree(a[k].node, b[k].node)
}

/// What `find_idx` found: either nothing anywhere, or the first hit.
pub proof fn lemma_find_idx_props(es: Seq<Entry>, nm: Seq<u8>)
    ensures
        find_idx(es, nm) == -1 ==> forall|j: int|
            #![trigger es[j]]
            0 <= j < es.len() ==> es[j].name@ != nm,
        find_idx(es, nm) != -1 ==> {
            &&& 0 <= find_idx(es, nm) < es.len()
            &&& es[find_idx(es, nm)].name@ == nm
            &&& forall|j: int| #![trigger es[j]] 0 <= j < find_idx(es, nm) ==> es[j].name@ != nm
        },
    decreases es.len(),
{
    if es.len() > 0 {
        lemma_find_idx_props(es.skip(1), nm);
        assert(forall|j: int| 1 <= j < es.len() ==> #[trigger] es[j] == es.skip(1)[j - 1]);
        assert(forall|j: int| 0 <= j < es.len() - 1 ==> #[trigger] es.skip(1)[j] == es[j + 1]);
    }
}

/// The first hit pins `find_idx` down: if `es[i]` is named `nm` and nothing
/// before it is, then `find_idx` returns `i`.
pub proof fn lemma_find_idx_first(es: Seq<Entry>, nm: Seq<u8>, i: int)
    requires
        0 <= i < es.len(),
        es[i].name@ == nm,
        forall|j: int| #![trigger es[j]] 0 <= j < i ==> es[j].name@ != nm,
    ensures
        find_idx(es, nm) == i,
{
    lemma_find_idx_props(es, nm);
    let r = find_idx(es, nm);
    if r == -1 {
        assert(es[i].name@ != nm);
    } else if r < i {
        assert(es[r].name@ != nm);
    } else if r > i {
        assert(es[i].name@ != nm);
    }
}

/// Lists with matching names find a given name at the same index.
pub proof fn lemma_find_idx_pointwise(a: Seq<Entry>, b: Seq<Entry>, nm: Seq<u8>)
    requires
        a.len() == b.len(),
        forall|k: int| #![trigger a[k]] 0 <= k < a.len() ==> a[k].name@ == b[k].name@,
    ensures
        find_idx(a, nm) == find_idx(b, nm),
    decreases a.len(),
{
    if a.len() > 0 {
        assert(forall|k: int| 0 <= k < a.len() - 1 ==> #[trigger] a.skip(1)[k] == a[k + 1]);
        assert(forall|k: int| 0 <= k < b.len() - 1 ==> #[trigger] b.skip(1)[k] == b[k + 1]);
        lemma_find_idx_pointwise(a.skip(1), b.skip(1), nm);
    }
}

/// Reading a non-empty path steps through the first name: the tail of the
/// path is then read in the child that name leads to.
pub proof fn lemma_lookup_child(n: Node, nm: Seq<u8>, q: Seq<Seq<u8>>)
    requires
        n matches Node::Dir { .. },
    ensures
        match n {
            Node::Dir { entries } => lookup(n, seq![nm] + q) == (match find_entry(entries@, nm) {
                Some(c) => lookup(c, q),
                None => None,
            }),
            _ => true,
        },
{
    let p = seq![nm] + q;
    assert(p.len() == 1 + q.len());
    assert(p[0] == nm);
    assert(p.skip(1) =~= q);
}

/// A non-empty path is its first name followed by its tail.
pub proof fn lemma_path_uncons(p: Seq<Seq<u8>>)
    requires
        p.len() > 0,
    ensures
        p =~= seq![p[0]] + p.skip(1),
{
}

/// Every child of a well-formed directory is well-formed.
pub proof fn lemma_wf_child(n: Node, nm: Seq<u8>, c: Node)
    requires
        wf(n),
        n matches Node::Dir { entries } && find_entry(entries@, nm) == Some(c),
    ensures
        wf(c),
{
    assert forall|q: Seq<Seq<u8>>|
        #![trigger lookup(c, q)]
        match lookup(c, q) {
            Some(Node::Dir { entries }) => distinct_names(entries@),
            _ => true,
        } by {
        lemma_lookup_child(n, nm, q);
        assert(lookup(n, seq![nm] + q) == lookup(c, q));
    }
}

/// A source stays compatible when the destination is replaced by one that
/// no observation can tell apart.
pub proof fn lemma_compat_equiv(src: Node, d1: Node, d2: Node)
    requires
        same_tree(d1, d2),
        compatible(src, d1),
    ensures
        compatible(src, d2),
{
    assert forall|p: Seq<Seq<u8>>|
        #![trigger lookup(src, p), lookup(d2, p)]
        !(file_at(src, p) is Some && dir_at(d2, p)) && !(dir_at(src, p) && file_at(
            d2,
            p,
        ) is Some) by {
        assert(file_at(d1, p) == file_at(d2, p));
        assert(dir_at(d1, p) == dir_at(d2, p));
        assert(!(file_at(src, p) is Some && dir_at(d1, p)));
        assert(!(dir_at(src, p) && file_at(d1, p) is Some));
    }
}

/// Indistinguishability of trees is symmetric.
pub proof fn lemma_same_tree_symm(a: Node, b: Node)
    requires
        same_tree(a, b),
    ensures
        same_tree(b, a),
{
    assert forall|p: Seq<Seq<u8>>| #![trigger file_at(b, p)] file_at(b, p) == file_at(a, p) by {
        assert(file_at(a, p) == file_at(b, p));
    }
    assert forall|p: Seq<Seq<u8>>| #![trigger dir_at(b, p)] dir_at(b, p) == dir_at(a, p) by {
        assert(dir_at(a, p) == dir_at(b, p));
    }
    assert forall|p: Seq<Seq<u8>>| #![trigger exists_at(b, p)] exists_at(b, p) == exists_at(
        a,
        p,
    ) by {
        assert(exists_at(a, p) == exists_at(b, p));
    }
}

/// A conflict-free pair stays conflict-free one step down: matching children
/// of compatible directories are compatible.
pub proof fn lemma_compat_child(s: Node, d: Node, nm: Seq<u8>, cs: Node, cd: Node)
    requires
        compatible(s, d),
        s matches Node::Dir { entries } && find_entry(entries@, nm) == Some(cs),
        d matches Node::Dir { entries } && find_entry(entries@, nm) == Some(cd),
    ensures
        compatible(cs, cd),
{
    assert forall|q: Seq<Seq<u8>>|
        #![trigger lookup(cs, q), lookup(cd, q)]
        !(file_at(cs, q) is Some && dir_at(cd, q)) && !(dir_at(cs, q) && file_at(
            cd,
            q,
        ) is Some) by {
        lemma_lookup_child(s, nm, q);
        lemma_lookup_child(d, nm, q);
        let p = seq![nm] + q;
        assert(lookup(s, p) == lookup(cs, q));
        assert(lookup(d, p) == lookup(cd, q));
        assert(!(file_at(s, p) is Some && dir_at(d, p)) && !(dir_at(s, p) && file_at(
            d,
            p,
        ) is Some));
    }
}

/// Each observation of two position-by-position matching directories agrees,
/// at one path.
proof fn lemma_dir_obs_at(av: Vec<Entry>, bv: Vec<Entry>, p: Seq<Seq<u8>>)
    requires
        entries_equiv(av@, bv@),
    ensures
        file_at(Node::Dir { entries: av }, p) == file_at(Node::Dir { entries: bv }, p),
        dir_at(Node::Dir { entries: av }, p) == dir_at(Node::Dir { entries: bv }, p),
        exists_at(Node::Dir { entries: av }, p) == exists_at(Node::Dir { entries: bv }, p),
{
    let a = Node::Dir { entries: av };
    let b = Node::Dir { entries: bv };
    if p.len() == 0 {
    } else {
        let nm = p[0];
        lemma_find_idx_pointwise(av@, bv@, nm);
        let i = find_idx(av@, nm);
        if i != -1 {
            lemma_find_idx_props(av@, nm);
            let ca = av@[i].node;
            let cb = bv@[i].node;
            assert(same_tree(ca, cb));
            assert(lookup(a, p) == lookup(ca, p.skip(1)));
            assert(lookup(b, p) == lookup(cb, p.skip(1)));
            assert(file_at(ca, p.skip(1)) == file_at(cb, p.skip(1)));
            assert(dir_at(ca, p.skip(1)) == dir_at(cb, p.skip(1)));
            assert(exists_at(ca, p.skip(1)) == exists_at(cb, p.skip(1)));
        }
    }
}

/// Directories whose entry lists match position by position cannot be told
/// apart as trees.
pub proof fn lemma_same_tree_dir(av: Vec<Entry>, bv: Vec<Entry>)
    requires
        entries_equiv(av@, bv@),
    ensures
        same_tree(Node::Dir { entries: av }, Node::Dir { entries: bv }),
{
    let a = Node::Dir { entries: av };
    let b = Node::Dir { entries: bv };
    assert forall|p: Seq<Seq<u8>>| #![trigger file_at(a, p)] file_at(a, p) == file_at(b, p) by {
        lemma_dir_obs_at(av, bv, p);
    }
    assert forall|p: Seq<Seq<u8>>| #![trigger dir_at(a, p)] dir_at(a, p) == dir_at(b, p) by {
        lemma_dir_obs_at(av, bv, p);
    }
    assert forall|p: Seq<Seq<u8>>| #![trigger exists_at(a, p)] exists_at(a, p) == exists_at(
        b,
        p,
    ) by {
        lemma_dir_obs_at(av, bv, p);
    }
}

/// Byte-for-byte equality of two byte vectors, decided by scanning.
pub fn bytes_eq(a: &Vec<u8>, b: &Vec<u8>) -> (r: bool)
    ensures
        r == (a@ == b@),
{
    if a.len() != b.len() {
        assert(a@.len() != b@.len());
        return false;
    }
    let mut i: usize = 0;
    while i < a.len()
        invariant
            i <= a@.len(),
            a@.len() == b@.len(),
            forall|k: int| 0 <= k < i ==> a@[k] == b@[k],
        decreases a@.len() - i,
    {
        if a[i] != b[i] {
            return false;
        }
        i += 1;
    }
    proof {
        assert(a@ =~= b@);
    }
    true
}

/// A fresh vector holding the same bytes.
pub fn clone_bytes(v: &Vec<u8>) -> (r: Vec<u8>)
    ensures
        r@ == v@,
{
    let mut r: Vec<u8> = Vec::new();
    let mut i: usize = 0;
    while i < v.len()
        invariant
            i <= v@.len(),
            r@ == v@.subrange(0, i as int),
        decreases v@.len() - i,
    {
        let x = v[i];
        r.push(x);
        proof {
            assert(r@ =~= v@.subrange(0, i as int + 1));
        }
        i += 1;
    }
    proof {
        assert(v@.subrange(0, v@.len() as int) =~= v@);
    }
    r
}

/// A fresh path holding the same name components.
pub fn clone_path(v: &Vec<Vec<u8>>) -> (r: Vec<Vec<u8>>)
    ensures
        r@.len() == v@.len(),
        forall|k: int| 0 <= k < v@.len() ==> #[trigger] r@[k]@ == v@[k]@,
{
    let mut r: Vec<Vec<u8>> = Vec::new();
    let mut i: usize = 0;
    while i < v.len()
        invariant
            i <= v@.len(),
            r@.len() == i,
            forall|k: int| 0 <= k < i ==> #[trigger] r@[k]@ == v@[k]@,
        decreases v@.len() - i,
    {
        let c = clone_bytes(&v[i]);
        r.push(c);
        i += 1;
    }
    r
}

/// A path extended by one more name component.
pub fn push_component(path: &Vec<Vec<u8>>, name: &Vec<u8>) -> (r: Vec<Vec<u8>>)
    ensures
        r@.len() == path@.len() + 1,
        forall|k: int| 0 <= k < path@.len() ==> #[trigger] r@[k]@ == path@[k]@,
        r@[path@.len() as int]@ == name@,
{
    let mut r = clone_path(path);
    let n = clone_bytes(name);
    r.push(n);
    r
}

/// Index of the first entry carrying `name`, by linear search.
pub fn find(es: &Vec<Entry>, name: &Vec<u8>) -> (r: Option<usize>)
    ensures
        match r {
            Some(i) => find_idx(es@, name@) == i as int,
            None => find_idx(es@, name@) == -1,
        },
{
    let mut i: usize = 0;
    while i < es.len()
        invariant
            i <= es@.len(),
            forall|j: int| #![trigger es@[j]] 0 <= j < i ==> es@[j].name@ != name@,
        decreases es@.len() - i,
    {
        if bytes_eq(&es[i].name, name) {
            proof {
                lemma_find_idx_first(es@, name@, i as int);
            }
            return Some(i);
        }
        i += 1;
    }
    proof {
        lemma_find_idx_props(es@, name@);
        if find_idx(es@, name@) != -1 {
            assert(es@[find_idx(es@, name@)].name@ != name@);
        }
    }
    None
}

/// Files with the same bytes cannot be told apart as trees.
pub proof fn lemma_same_tree_file(a: Vec<u8>, b: Vec<u8>)
    requires
        a@ == b@,
    ensures
        same_tree(Node::File { data: a }, Node::File { data: b }),
{
    let x = Node::File { data: a };
    let y = Node::File { data: b };
    assert forall|p: Seq<Seq<u8>>| #![trigger file_at(x, p)] file_at(x, p) == file_at(y, p) by {
        if p.len() == 0 {
        }
    }
    assert forall|p: Seq<Seq<u8>>| #![trigger dir_at(x, p)] dir_at(x, p) == dir_at(y, p) by {
        if p.len() == 0 {
        }
    }
    assert forall|p: Seq<Seq<u8>>| #![trigger exists_at(x, p)] exists_at(x, p) == exists_at(
        y,
        p,
    ) by {
        if p.len() == 0 {
        }
    }
}

/// A fresh tree that no observation can tell apart from `n`.
#[verifier::loop_isolation(false)]
pub fn clone_node(n: &Node) -> (r: Node)
    ensures
        same_tree(r, *n),
    decreases *n,
{
    match n {
        Node::File { data } => {
            let d = clone_bytes(data);
            let r = Node::File { data: d };
            proof {
                lemma_same_tree_file(d, *data);
            }
            r
        },
        Node::Dir { entries } => {
            let mut out: Vec<Entry> = Vec::new();
            let mut i: usize = 0;
            while i < entries.len()
                invariant
                    i <= entries@.len(),
                    out@.len() == i,
                    forall|k: int|
                        #![trigger out@[k]]
                        0 <= k < i ==> out@[k].name@ == entries@[k].name@ && same_tree(
                            out@[k].node,
                            entries@[k].node,
                        ),
                decreases entries@.len() - i,
            {
                let name = clone_bytes(&entries[i].name);
                proof {
                    let m: Node = *n;
                    assert(m is Dir);
                    assert(decreases_to!(m => m->entries));
                    assert(decreases_to!(m->entries => m->entries[i as int]));
                    assert(decreases_to!(m => m->entries[i as int].node));
                    assert(m->entries[i as int].node == entries@[i as int].node);
                }
                let child = clone_node(&entries[i].node);
                out.push(Entry { name, node: child });
                i += 1;
            }
            proof {
                lemma_same_tree_dir(out, *entries);
            }
            Node::Dir { entries: out }
        },
    }
}

/// Whether the node is a directory.
pub fn is_dir_node(n: &Node) -> (r: bool)
    ensures
        r == (*n matches Node::Dir { .. }),
{
    match n {
        Node::Dir { .. } => true,
        Node::File { .. } => false,
    }
}

} // verus!
