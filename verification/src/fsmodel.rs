//! An in-memory filesystem model: a flat store of path-addressed nodes.
//!
//! The mutation engine is verified against this model.  A filesystem value
//! is a list of entries, each a path together with a node (a file with its
//! bytes, or a directory).  Well-formedness asks that paths be distinct and
//! non-empty, that every ancestor of an entry be present as a directory,
//! and that the total number of file bytes fit in a `u64`.

use vstd::prelude::*;

use crate::fspath::{FsPath, PathV, rebase, under};

verus! {

/// A node of the filesystem: a regular file with its contents, or a directory.
pub enum FsNode {
    File(Vec<u8>),
    Dir,
}

/// The mathematical value of a node.
pub enum NodeV {
    File(Seq<u8>),
    Dir,
}

impl View for FsNode {
    type V = NodeV;

    open spec fn view(&self) -> NodeV {
        match self {
            FsNode::File(bytes) => NodeV::File(bytes@),
            FsNode::Dir => NodeV::Dir,
        }
    }
}

/// One entry of the store.
pub struct FsEntry {
    pub path: FsPath,
    pub node: FsNode,
}

/// The mathematical value of an entry.
pub struct EntryV {
    pub path: PathV,
    pub node: NodeV,
}

impl View for FsEntry {
    type V = EntryV;

    open spec fn view(&self) -> EntryV {
        EntryV { path: self.path@, node: self.node@ }
    }
}

/// The whole filesystem model.
pub struct Fs {
    pub entries: Vec<FsEntry>,
}

/// The mathematical value of a list of entries.
pub open spec fn entries_view(v: Seq<FsEntry>) -> Seq<EntryV> {
    Seq::new(v.len(), |i: int| v[i]@)
}

impl View for Fs {
    type V = Seq<EntryV>;

    open spec fn view(&self) -> Seq<EntryV> {
        entries_view(self.entries@)
    }
}

/// Some entry of `s` has path `q`.
pub open spec fn has_at(s: Seq<EntryV>, q: PathV) -> bool {
    exists|i: int| 0 <= i < s.len() && s[i].path == q
}

/// The node stored at path `q` (meaningful only when `has_at(s, q)`).
pub open spec fn node_at(s: Seq<EntryV>, q: PathV) -> NodeV {
    s[choose|i: int| 0 <= i < s.len() && s[i].path == q].node
}

/// Paths of entries are pairwise distinct.
pub open spec fn uniq(s: Seq<EntryV>) -> bool {
    forall|i: int, j: int| 0 <= i < j < s.len() ==> s[i].path != s[j].path
}

/// The bytes a node contributes to a size total.
pub open spec fn node_size(n: NodeV) -> nat {
    match n {
        NodeV::File(bytes) => bytes.len(),
        NodeV::Dir => 0,
    }
}

/// Total file bytes over all entries of `s`.
pub open spec fn total_size(s: Seq<EntryV>) -> int
    decreases s.len(),
{
    if s.len() == 0 {
        0
    } else {
        total_size(s.drop_last()) + node_size(s.last().node)
    }
}

/// The entries of `s` whose path does not lie under `p`, in order.
pub open spec fn drop_under(s: Seq<EntryV>, p: PathV) -> Seq<EntryV>
    decreases s.len(),
{
    if s.len() == 0 {
        s
    } else if under(p, s.last().path) {
        drop_under(s.drop_last(), p)
    } else {
        drop_under(s.drop_last(), p).push(s.last())
    }
}

/// The entries of `s` whose path lies under `p`, in order.
pub open spec fn keep_under(s: Seq<EntryV>, p: PathV) -> Seq<EntryV>
    decreases s.len(),
{
    if s.len() == 0 {
        s
    } else if under(p, s.last().path) {
        keep_under(s.drop_last(), p).push(s.last())
    } else {
        keep_under(s.drop_last(), p)
    }
}

/// The entries of `s` under `src`, relocated under `dst`, in order.
pub open spec fn rebased_under(s: Seq<EntryV>, src: PathV, dst: PathV) -> Seq<EntryV>
    decreases s.len(),
{
    if s.len() == 0 {
        s
    } else if under(src, s.last().path) {
        rebased_under(s.drop_last(), src, dst).push(
            EntryV { path: rebase(s.last().path, src, dst), node: s.last().node },
        )
    } else {
        rebased_under(s.drop_last(), src, dst)
    }
}

/// Total bytes of the subtree rooted at `p`.
pub open spec fn subtree_size(s: Seq<EntryV>, p: PathV) -> int {
    total_size(keep_under(s, p))
}

/// Every proper ancestor of every entry is itself an entry.
pub open spec fn ancestors_present(s: Seq<EntryV>) -> bool {
    forall|i: int, k: int|
        0 <= i < s.len() && 1 <= k < s[i].path.len() ==> has_at(s, #[trigger] s[i].path.take(k))
}

/// An entry with entries strictly below it is a directory.
pub open spec fn inner_nodes_are_dirs(s: Seq<EntryV>) -> bool {
    forall|i: int, j: int|
        0 <= i < s.len() && 0 <= j < s.len() && under(#[trigger] s[i].path, #[trigger] s[j].path)
            && s[i].path.len() < s[j].path.len() ==> s[i].node is Dir
}

/// Well-formedness of a filesystem value.
pub open spec fn wf(s: Seq<EntryV>) -> bool {
    &&& uniq(s)
    &&& (forall|i: int| 0 <= i < s.len() ==> (#[trigger] s[i].path).len() >= 1)
    &&& ancestors_present(s)
    &&& inner_nodes_are_dirs(s)
    &&& total_size(s) <= u64::MAX
}

/// `p` names the root or an existing directory of `s`.
pub open spec fn dir_or_root(s: Seq<EntryV>, p: PathV) -> bool {
    p.len() == 0 || (has_at(s, p) && node_at(s, p) is Dir)
}

/// Some entry of `s` has path `q` and node `n`.
pub open spec fn has_node(s: Seq<EntryV>, q: PathV, n: NodeV) -> bool {
    exists|i: int| 0 <= i < s.len() && s[i].path == q && s[i].node == n
}

/// Splitting membership at the last entry.
pub proof fn lemma_mem_unsnoc(s: Seq<EntryV>, q: PathV, n: NodeV)
    requires
        s.len() > 0,
    ensures
        has_node(s, q, n) == (has_node(s.drop_last(), q, n) || (s.last().path == q
            && s.last().node == n)),
        has_at(s, q) == (has_at(s.drop_last(), q) || s.last().path == q),
{
    if has_node(s, q, n) {
        let i = choose|i: int| 0 <= i < s.len() && s[i].path == q && s[i].node == n;
        if i < s.len() - 1 {
            assert(s.drop_last()[i].path == q && s.drop_last()[i].node == n);
        }
    }
    if has_node(s.drop_last(), q, n) {
        let i = choose|i: int|
            0 <= i < s.drop_last().len() && s.drop_last()[i].path == q && s.drop_last()[i].node
                == n;
        assert(s[i].path == q && s[i].node == n);
    }
    if has_at(s, q) {
        let i = choose|i: int| 0 <= i < s.len() && s[i].path == q;
        if i < s.len() - 1 {
            assert(s.drop_last()[i].path == q);
        }
    }
    if has_at(s.drop_last(), q) {
        let i = choose|i: int| 0 <= i < s.drop_last().len() && s.drop_last()[i].path == q;
        assert(s[i].path == q);
    }
    if s.last().path == q {
        assert(s[s.len() - 1].path == q);
    }
}

/// Membership after pushing one entry.
pub proof fn lemma_mem_push(s: Seq<EntryV>, e: EntryV, q: PathV, n: NodeV)
    ensures
        has_node(s.push(e), q, n) == (has_node(s, q, n) || (e.path == q && e.node == n)),
        has_at(s.push(e), q) == (has_at(s, q) || e.path == q),
{
    assert(s.push(e).drop_last() =~= s);
    assert(s.push(e).last() == e);
    lemma_mem_unsnoc(s.push(e), q, n);
}

/// Membership in `drop_under`: exactly the entries not under `p` survive.
pub proof fn lemma_drop_under_mem(s: Seq<EntryV>, p: PathV, q: PathV, n: NodeV)
    ensures
        has_node(drop_under(s, p), q, n) == (has_node(s, q, n) && !under(p, q)),
        has_at(drop_under(s, p), q) == (has_at(s, q) && !under(p, q)),
    decreases s.len(),
{
    if s.len() > 0 {
        lemma_drop_under_mem(s.drop_last(), p, q, n);
        lemma_mem_unsnoc(s, q, n);
        if !under(p, s.last().path) {
            lemma_mem_push(drop_under(s.drop_last(), p), s.last(), q, n);
        }
    }
}

/// Membership in `keep_under`: exactly the entries under `p` survive.
pub proof fn lemma_keep_under_mem(s: Seq<EntryV>, p: PathV, q: PathV, n: NodeV)
    ensures
        has_node(keep_under(s, p), q, n) == (has_node(s, q, n) && under(p, q)),
        has_at(keep_under(s, p), q) == (has_at(s, q) && under(p, q)),
    decreases s.len(),
{
    if s.len() > 0 {
        lemma_keep_under_mem(s.drop_last(), p, q, n);
        lemma_mem_unsnoc(s, q, n);
        if under(p, s.last().path) {
            lemma_mem_push(keep_under(s.drop_last(), p), s.last(), q, n);
        }
    }
}

/// Membership in `rebased_under`: the relocated copies of the entries under
/// `src`, and nothing else.
pub proof fn lemma_rebased_mem(s: Seq<EntryV>, src: PathV, dst: PathV, q: PathV, n: NodeV)
    ensures
        has_node(rebased_under(s, src, dst), q, n) == (under(dst, q) && has_node(
            s,
            rebase(q, dst, src),
            n,
        )),
        has_at(rebased_under(s, src, dst), q) == (under(dst, q) && has_at(
            s,
            rebase(q, dst, src),
        )),
    decreases s.len(),
{
    if s.len() > 0 {
        lemma_rebased_mem(s.drop_last(), src, dst, q, n);
        lemma_mem_unsnoc(s, rebase(q, dst, src), n);
        if under(dst, q) {
            crate::fspath::lemma_rebase_round(q, dst, src);
        }
        if under(src, s.last().path) {
            let moved = EntryV { path: rebase(s.last().path, src, dst), node: s.last().node };
            crate::fspath::lemma_rebase_round(s.last().path, src, dst);
            lemma_mem_push(rebased_under(s.drop_last(), src, dst), moved, q, n);
            if moved.path == q {
                assert(rebase(q, dst, src) == s.last().path);
            }
        } else {
            if under(dst, q) && s.last().path == rebase(q, dst, src) {
                assert(under(src, rebase(q, dst, src)));
                assert(false);
            }
        }
    }
}

/// Membership in a concatenation.
pub proof fn lemma_concat_mem(a: Seq<EntryV>, b: Seq<EntryV>, q: PathV, n: NodeV)
    ensures
        has_node(a + b, q, n) == (has_node(a, q, n) || has_node(b, q, n)),
        has_at(a + b, q) == (has_at(a, q) || has_at(b, q)),
{
    if has_node(a, q, n) {
        let i = choose|i: int| 0 <= i < a.len() && a[i].path == q && a[i].node == n;
        assert((a + b)[i].path == q && (a + b)[i].node == n);
    }
    if has_node(b, q, n) {
        let i = choose|i: int| 0 <= i < b.len() && b[i].path == q && b[i].node == n;
        assert((a + b)[a.len() + i].path == q && (a + b)[a.len() + i].node == n);
    }
    if has_node(a + b, q, n) {
        let i = choose|i: int| 0 <= i < (a + b).len() && (a + b)[i].path == q && (a + b)[i].node == n;
        if i < a.len() {
            assert(a[i].path == q && a[i].node == n);
        } else {
            assert(b[i - a.len()].path == q && b[i - a.len()].node == n);
        }
    }
    if has_at(a, q) {
        let i = choose|i: int| 0 <= i < a.len() && a[i].path == q;
        assert((a + b)[i].path == q);
    }
    if has_at(b, q) {
        let i = choose|i: int| 0 <= i < b.len() && b[i].path == q;
        assert((a + b)[a.len() + i].path == q);
    }
    if has_at(a + b, q) {
        let i = choose|i: int| 0 <= i < (a + b).len() && (a + b)[i].path == q;
        if i < a.len() {
            assert(a[i].path == q);
        } else {
            assert(b[i - a.len()].path == q);
        }
    }
}

/// `has_node` and `has_at` agree through `node_at` on uniquely-pathed stores.
pub proof fn lemma_has_node_at(s: Seq<EntryV>, q: PathV, n: NodeV)
    requires
        uniq(s),
    ensures
        has_node(s, q, n) == (has_at(s, q) && node_at(s, q) == n),
{
    if has_node(s, q, n) {
        let i = choose|i: int| 0 <= i < s.len() && s[i].path == q && s[i].node == n;
        lemma_node_at(s, i);
    }
}

/// Uniqueness carries over to the derived stores.
pub proof fn lemma_derived_uniq(s: Seq<EntryV>, p: PathV, dst: PathV)
    requires
        uniq(s),
    ensures
        uniq(drop_under(s, p)),
        uniq(keep_under(s, p)),
        uniq(rebased_under(s, p, dst)),
    decreases s.len(),
{
    if s.len() > 0 {
        lemma_derived_uniq(s.drop_last(), p, dst);
        assert forall|q: PathV, n: NodeV|
            has_node(s.drop_last(), q, n) implies has_node(s, q, n) by {
            let i = choose|i: int|
                0 <= i < s.drop_last().len() && s.drop_last()[i].path == q && s.drop_last()[i].node
                    == n;
            assert(s[i].path == q && s[i].node == n);
        }
        if under(p, s.last().path) {
            // keep_under pushes the last entry; drop_under does not.
            let d = keep_under(s.drop_last(), p);
            assert forall|i: int, j: int|
                0 <= i < j < keep_under(s, p).len() implies keep_under(s, p)[i].path != keep_under(
                s,
                p,
            )[j].path by {
                if j == d.len() {
                    assert(keep_under(s, p)[j] == s.last());
                    let e = d[i];
                    lemma_keep_under_mem(s.drop_last(), p, e.path, e.node);
                    assert(has_node(d, e.path, e.node));
                    if e.path == s.last().path {
                        let k = choose|k: int|
                            0 <= k < s.drop_last().len() && s.drop_last()[k].path == e.path;
                        assert(s[k].path == s.last().path);
                        assert(false);
                    }
                }
            }
            let r = rebased_under(s.drop_last(), p, dst);
            let moved = EntryV { path: rebase(s.last().path, p, dst), node: s.last().node };
            assert forall|i: int, j: int|
                0 <= i < j < rebased_under(s, p, dst).len() implies rebased_under(
                s,
                p,
                dst,
            )[i].path != rebased_under(s, p, dst)[j].path by {
                if j == r.len() {
                    assert(rebased_under(s, p, dst)[j] == moved);
                    let e = r[i];
                    lemma_rebased_mem(s.drop_last(), p, dst, e.path, e.node);
                    if e.path == moved.path {
                        crate::fspath::lemma_rebase_round(s.last().path, p, dst);
                        assert(rebase(e.path, dst, p) == s.last().path);
                        let k = choose|k: int|
                            0 <= k < s.drop_last().len() && s.drop_last()[k].path == rebase(
                                e.path,
                                dst,
                                p,
                            );
                        assert(s[k].path == s.last().path);
                        assert(false);
                    }
                }
            }
        } else {
            let d = drop_under(s.drop_last(), p);
            assert forall|i: int, j: int|
                0 <= i < j < drop_under(s, p).len() implies drop_under(s, p)[i].path != drop_under(
                s,
                p,
            )[j].path by {
                if j == d.len() {
                    assert(drop_under(s, p)[j] == s.last());
                    let e = d[i];
                    lemma_drop_under_mem(s.drop_last(), p, e.path, e.node);
                    assert(has_node(d, e.path, e.node));
                    if e.path == s.last().path {
                        let k = choose|k: int|
                            0 <= k < s.drop_last().len() && s.drop_last()[k].path == e.path;
                        assert(s[k].path == s.last().path);
                        assert(false);
                    }
                }
            }
        }
    }
}

/// Size of a pushed entry.
pub proof fn lemma_size_push(s: Seq<EntryV>, e: EntryV)
    ensures
        total_size(s.push(e)) == total_size(s) + node_size(e.node),
{
    assert(s.push(e).drop_last() =~= s);
    assert(s.push(e).last() == e);
}

/// Sizes are never negative.
pub proof fn lemma_size_nonneg(s: Seq<EntryV>)
    ensures
        total_size(s) >= 0,
    decreases s.len(),
{
    if s.len() > 0 {
        lemma_size_nonneg(s.drop_last());
    }
}

/// Size of a concatenation.
pub proof fn lemma_size_concat(a: Seq<EntryV>, b: Seq<EntryV>)
    ensures
        total_size(a + b) == total_size(a) + total_size(b),
    decreases b.len(),
{
    if b.len() == 0 {
        assert(a + b =~= a);
    } else {
        assert((a + b).drop_last() =~= a + b.drop_last());
        assert((a + b).last() == b.last());
        lemma_size_concat(a, b.drop_last());
    }
}

/// The subtree below `p` and the rest split the total size.
pub proof fn lemma_size_split(s: Seq<EntryV>, p: PathV)
    ensures
        total_size(s) == total_size(drop_under(s, p)) + total_size(keep_under(s, p)),
    decreases s.len(),
{
    if s.len() > 0 {
        lemma_size_split(s.drop_last(), p);
        if under(p, s.last().path) {
            lemma_size_push(keep_under(s.drop_last(), p), s.last());
        } else {
            lemma_size_push(drop_under(s.drop_last(), p), s.last());
        }
    }
}

/// Relocation does not change sizes.
pub proof fn lemma_size_rebased(s: Seq<EntryV>, src: PathV, dst: PathV)
    ensures
        total_size(rebased_under(s, src, dst)) == total_size(keep_under(s, src)),
    decreases s.len(),
{
    if s.len() > 0 {
        lemma_size_rebased(s.drop_last(), src, dst);
        if under(src, s.last().path) {
            lemma_size_push(keep_under(s.drop_last(), src), s.last());
            lemma_size_push(
                rebased_under(s.drop_last(), src, dst),
                EntryV { path: rebase(s.last().path, src, dst), node: s.last().node },
            );
        }
    }
}

/// `keep_under` distributes over concatenation.
pub proof fn lemma_keep_concat(a: Seq<EntryV>, b: Seq<EntryV>, q: PathV)
    ensures
        keep_under(a + b, q) == keep_under(a, q) + keep_under(b, q),
    decreases b.len(),
{
    if b.len() == 0 {
        assert(a + b =~= a);
        assert(keep_under(a, q) + keep_under(b, q) =~= keep_under(a, q));
    } else {
        assert((a + b).drop_last() =~= a + b.drop_last());
        assert((a + b).last() == b.last());
        lemma_keep_concat(a, b.drop_last(), q);
        if under(q, b.last().path) {
            assert(keep_under(a, q) + keep_under(b.drop_last(), q).push(b.last()) =~= (keep_under(
                a,
                q,
            ) + keep_under(b.drop_last(), q)).push(b.last()));
        }
    }
}

/// Keeping below `q` and dropping below `p` commute.
pub proof fn lemma_keep_drop_commute(s: Seq<EntryV>, p: PathV, q: PathV)
    ensures
        keep_under(drop_under(s, p), q) == drop_under(keep_under(s, q), p),
    decreases s.len(),
{
    if s.len() > 0 {
        lemma_keep_drop_commute(s.drop_last(), p, q);
        let e = s.last();
        if under(p, e.path) && under(q, e.path) {
            assert(keep_under(s, q) == keep_under(s.drop_last(), q).push(e));
            assert(keep_under(s, q).drop_last() =~= keep_under(s.drop_last(), q));
        } else if under(p, e.path) {
        } else if under(q, e.path) {
            assert(keep_under(s, q).drop_last() =~= keep_under(s.drop_last(), q));
            assert(keep_under(drop_under(s, p), q) == keep_under(
                drop_under(s.drop_last(), p),
                q,
            ).push(e));
        } else {
            assert(drop_under(s, p).drop_last() =~= drop_under(s.drop_last(), p));
        }
    }
}

/// Dropping below a path that no entry lies under changes nothing.
pub proof fn lemma_drop_all_kept(s: Seq<EntryV>, p: PathV)
    requires
        forall|i: int| 0 <= i < s.len() ==> !under(p, (#[trigger] s[i]).path),
    ensures
        drop_under(s, p) == s,
    decreases s.len(),
{
    if s.len() > 0 {
        assert(!under(p, s[s.len() - 1].path));
        assert(forall|i: int|
            0 <= i < s.drop_last().len() ==> !under(p, (#[trigger] s.drop_last()[i]).path));
        lemma_drop_all_kept(s.drop_last(), p);
        assert(drop_under(s, p) =~= s);
    }
}

/// Keeping below a path that no entry lies under yields nothing.
pub proof fn lemma_keep_none(s: Seq<EntryV>, p: PathV)
    requires
        forall|i: int| 0 <= i < s.len() ==> !under(p, (#[trigger] s[i]).path),
    ensures
        keep_under(s, p) == Seq::<EntryV>::empty(),
    decreases s.len(),
{
    if s.len() > 0 {
        assert(!under(p, s[s.len() - 1].path));
        assert(forall|i: int|
            0 <= i < s.drop_last().len() ==> !under(p, (#[trigger] s.drop_last()[i]).path));
        lemma_keep_none(s.drop_last(), p);
    } else {
        assert(keep_under(s, p) =~= Seq::<EntryV>::empty());
    }
}

/// Every relocated entry lies under the destination.
pub proof fn lemma_rebased_all_under(s: Seq<EntryV>, src: PathV, dst: PathV)
    ensures
        forall|i: int|
            0 <= i < rebased_under(s, src, dst).len() ==> under(
                dst,
                (#[trigger] rebased_under(s, src, dst)[i]).path,
            ),
    decreases s.len(),
{
    if s.len() > 0 {
        lemma_rebased_all_under(s.drop_last(), src, dst);
        if under(src, s.last().path) {
            assert(rebase(s.last().path, src, dst).take(dst.len() as int) =~= dst);
        }
    }
}

/// Sum of a sequence of integers.
pub open spec fn sum_ints(s: Seq<int>) -> int
    decreases s.len(),
{
    if s.len() == 0 {
        0
    } else {
        sum_ints(s.drop_last()) + s.last()
    }
}

/// The sizes of the file entries of `s`, in order.
pub open spec fn file_sizes(s: Seq<EntryV>) -> Seq<int>
    decreases s.len(),
{
    if s.len() == 0 {
        Seq::empty()
    } else if s.last().node is File {
        file_sizes(s.drop_last()).push(node_size(s.last().node) as int)
    } else {
        file_sizes(s.drop_last())
    }
}

/// A store with no file sizes holds only directories.
pub proof fn lemma_file_sizes_empty(s: Seq<EntryV>)
    requires
        file_sizes(s).len() == 0,
    ensures
        forall|i: int| 0 <= i < s.len() ==> (#[trigger] s[i].node) is Dir,
    decreases s.len(),
{
    if s.len() > 0 {
        lemma_file_sizes_empty(s.drop_last());
        assert(forall|i: int| 0 <= i < s.len() - 1 ==> s[i] == s.drop_last()[i]);
    }
}

/// The file sizes sum to the total size, and none is negative.
pub proof fn lemma_file_sizes_sum(s: Seq<EntryV>)
    ensures
        sum_ints(file_sizes(s)) == total_size(s),
        forall|i: int| 0 <= i < file_sizes(s).len() ==> #[trigger] file_sizes(s)[i] >= 0,
    decreases s.len(),
{
    if s.len() > 0 {
        lemma_file_sizes_sum(s.drop_last());
        if s.last().node is File {
            assert(file_sizes(s).drop_last() =~= file_sizes(s.drop_last()));
        }
    }
}

/// Partial sums of a non-negative sequence are bounded by the whole sum.
pub proof fn lemma_sum_take(s: Seq<int>, k: int)
    requires
        0 <= k <= s.len(),
        forall|i: int| 0 <= i < s.len() ==> #[trigger] s[i] >= 0,
    ensures
        sum_ints(s.take(k)) <= sum_ints(s),
        sum_ints(s.take(k)) >= 0,
    decreases s.len() - k,
{
    if k == s.len() {
        assert(s.take(k) =~= s);
        lemma_sum_nonneg(s);
    } else {
        lemma_sum_take(s, k + 1);
        assert(s.take(k + 1).drop_last() =~= s.take(k));
        assert(s.take(k + 1).last() == s[k]);
        assert(forall|i: int| 0 <= i < s.take(k).len() ==> #[trigger] s.take(k)[i] >= 0);
        lemma_sum_nonneg(s.take(k));
    }
}

/// A sum of non-negative values is non-negative.
proof fn lemma_sum_nonneg(s: Seq<int>)
    requires
        forall|i: int| 0 <= i < s.len() ==> #[trigger] s[i] >= 0,
    ensures
        sum_ints(s) >= 0,
    decreases s.len(),
{
    if s.len() > 0 {
        assert(forall|i: int|
            0 <= i < s.drop_last().len() ==> #[trigger] s.drop_last()[i] >= 0);
        lemma_sum_nonneg(s.drop_last());
    }
}

/// In a well-formed store, the parent of every present path is the root or
/// a present directory.
pub proof fn lemma_parent_is_dir(s: Seq<EntryV>, p: PathV)
    requires
        wf(s),
        has_at(s, p),
        p.len() >= 1,
    ensures
        dir_or_root(s, p.drop_last()),
{
    let parent = p.drop_last();
    assert(parent =~= p.take(p.len() - 1));
    if parent.len() >= 1 {
        let j = choose|j: int| 0 <= j < s.len() && s[j].path == p;
        assert(has_at(s, s[j].path.take(p.len() - 1)));
        let i = choose|i: int| 0 <= i < s.len() && s[i].path == parent;
        assert(under(s[i].path, s[j].path)) by {
            crate::fspath::lemma_under_take(p, p.len() - 1);
        }
        assert(s[i].node is Dir);
        lemma_node_at(s, i);
    }
}

/// A prefix's subtree size is bounded by the whole store's total size.
pub proof fn lemma_size_bounds(s: Seq<EntryV>, p: PathV, j: int)
    requires
        0 <= j <= s.len(),
    ensures
        0 <= subtree_size(s.take(j), p),
        subtree_size(s.take(j), p) <= total_size(s),
        subtree_size(s.take(j + 1), p) <= total_size(s) || j == s.len(),
{
    lemma_size_nonneg(keep_under(s.take(j), p));
    lemma_prefix_subtree_le(s, p, j);
    if j < s.len() {
        lemma_prefix_subtree_le(s, p, j + 1);
    }
}

/// Helper: the subtree size within a take-prefix never exceeds the total.
proof fn lemma_prefix_subtree_le(s: Seq<EntryV>, p: PathV, j: int)
    requires
        0 <= j <= s.len(),
    ensures
        subtree_size(s.take(j), p) <= total_size(s),
{
    let t = s.take(j);
    lemma_size_split(t, p);
    lemma_size_nonneg(drop_under(t, p));
    assert(s =~= t + s.skip(j));
    lemma_size_concat(t, s.skip(j));
    lemma_size_nonneg(s.skip(j));
}

/// A uniquely-pathed store has a well-defined node at each present path.
pub proof fn lemma_node_at(s: Seq<EntryV>, i: int)
    requires
        uniq(s),
        0 <= i < s.len(),
    ensures
        has_at(s, s[i].path),
        node_at(s, s[i].path) == s[i].node,
{
    let q = s[i].path;
    assert(has_at(s, q));
    let j = choose|j: int| 0 <= j < s.len() && s[j].path == q;
    assert(j == i);
}

impl Fs {
    /// An empty filesystem.
    pub fn empty() -> (r: Fs)
        ensures
            r@ =~= Seq::<EntryV>::empty(),
            wf(r@),
    {
        let r = Fs { entries: Vec::new() };
        proof {
            assert(r@ =~= Seq::<EntryV>::empty());
        }
        r
    }

    /// The index of the entry at path `p`, if any.
    fn lookup_index(&self, p: &FsPath) -> (r: Option<usize>)
        ensures
            match r {
                Some(i) => i < self@.len() && self@[i as int].path == p@,
                None => !has_at(self@, p@),
            },
    {
        let mut i: usize = 0;
        while i < self.entries.len()
            invariant
                i <= self@.len(),
                self@.len() == self.entries@.len(),
                forall|j: int| 0 <= j < i ==> self@[j].path != p@,
            decreases self.entries.len() - i,
        {
            if &self.entries[i].path == p {
                return Some(i);
            }
            i = i + 1;
        }
        None
    }

    /// Whether some entry has path `p`.
    pub fn exists_path(&self, p: &FsPath) -> (r: bool)
        ensures
            r == has_at(self@, p@),
    {
        match self.lookup_index(p) {
            Some(i) => {
                proof {
                    assert(has_at(self@, p@));
                }
                true
            },
            None => false,
        }
    }

    /// Whether `p` is an existing directory.
    pub fn is_dir(&self, p: &FsPath) -> (r: bool)
        requires
            uniq(self@),
        ensures
            r == (has_at(self@, p@) && node_at(self@, p@) is Dir),
    {
        match self.lookup_index(p) {
            Some(i) => {
                proof {
                    lemma_node_at(self@, i as int);
                }
                match self.entries[i].node {
                    FsNode::Dir => true,
                    FsNode::File(_) => false,
                }
            },
            None => false,
        }
    }

    /// Whether `p` is an existing regular file.
    pub fn is_file(&self, p: &FsPath) -> (r: bool)
        requires
            uniq(self@),
        ensures
            r == (has_at(self@, p@) && node_at(self@, p@) is File),
    {
        match self.lookup_index(p) {
            Some(i) => {
                proof {
                    lemma_node_at(self@, i as int);
                }
                match self.entries[i].node {
                    FsNode::Dir => false,
                    FsNode::File(_) => true,
                }
            },
            None => false,
        }
    }

    /// The contents of the file at `p`, if `p` is a file.
    pub fn read_file(&self, p: &FsPath) -> (r: Option<Vec<u8>>)
        requires
            uniq(self@),
        ensures
            match r {
                Some(bytes) => has_at(self@, p@) && node_at(self@, p@) == NodeV::File(bytes@),
                None => !(has_at(self@, p@) && node_at(self@, p@) is File),
            },
    {
        match self.lookup_index(p) {
            Some(i) => {
                proof {
                    lemma_node_at(self@, i as int);
                }
                match &self.entries[i].node {
                    FsNode::Dir => None,
                    FsNode::File(bytes) => Some(dup_bytes(bytes)),
                }
            },
            None => None,
        }
    }

    /// Adds a fresh entry at `p` below an existing directory (or the root).
    pub fn create(&mut self, p: &FsPath, node: FsNode)
        requires
            wf(old(self)@),
            !has_at(old(self)@, p@),
            p@.len() >= 1,
            dir_or_root(old(self)@, p@.drop_last()),
            total_size(old(self)@) + node_size(node@) <= u64::MAX,
        ensures
            final(self)@ == old(self)@.push(EntryV { path: p@, node: node@ }),
            wf(final(self)@),
            total_size(final(self)@) == total_size(old(self)@) + node_size(node@),
            forall|q: PathV, n: NodeV|
                has_node(final(self)@, q, n) == (has_node(old(self)@, q, n) || (q == p@ && n
                    == node@)),
            forall|q: PathV|
                #[trigger] has_at(final(self)@, q) == (has_at(old(self)@, q) || q == p@),
    {
        let ghost s = self@;
        let ghost e = EntryV { path: p@, node: node@ };
        self.entries.push(FsEntry { path: p.dup(), node });
        proof {
            assert(final(self)@ =~= s.push(e));
            lemma_size_push(s, e);
            assert forall|q: PathV, n: NodeV|
                has_node(final(self)@, q, n) == (has_node(s, q, n) || (q == p@ && n
                == node@)) by {
                lemma_mem_push(s, e, q, n);
            }
            assert forall|q: PathV| has_at(final(self)@, q) == (has_at(s, q) || q == p@) by {
                lemma_mem_push(s, e, q, NodeV::Dir);
            }
            lemma_create_wf(s, e);
        }
    }

    /// Removes the subtree rooted at `p` (and nothing else).
    pub fn remove_tree(&mut self, p: &FsPath)
        requires
            wf(old(self)@),
        ensures
            final(self)@ == drop_under(old(self)@, p@),
            wf(final(self)@),
            total_size(final(self)@) == total_size(old(self)@) - subtree_size(old(self)@, p@),
            forall|q: PathV, n: NodeV|
                has_node(final(self)@, q, n) == (has_node(old(self)@, q, n) && !under(p@, q)),
            forall|q: PathV|
                #[trigger] has_at(final(self)@, q) == (has_at(old(self)@, q) && !under(p@, q)),
    {
        let ghost s = self@;
        let mut out: Vec<FsEntry> = Vec::new();
        let mut i: usize = 0;
        while i < self.entries.len()
            invariant
                i <= self.entries@.len(),
                self@ == s,
                self@.len() == self.entries@.len(),
                entries_view(out@) == drop_under(s.take(i as int), p@),
            decreases self.entries.len() - i,
        {
            let ghost out_pre = entries_view(out@);
            let e = &self.entries[i];
            proof {
                assert(s.take(i + 1).drop_last() =~= s.take(i as int));
                assert(s.take(i + 1).last() == s[i as int]);
                assert(e@ == s[i as int]);
            }
            if !p.is_ancestor_of(&e.path) {
                out.push(dup_entry(e));
                proof {
                    assert(entries_view(out@) =~= out_pre.push(s[i as int]));
                }
            }
            i = i + 1;
        }
        proof {
            assert(s.take(s.len() as int) =~= s);
        }
        self.entries = out;
        proof {
            lemma_remove_wf(s, p@);
            lemma_size_split(s, p@);
            assert forall|q: PathV, n: NodeV|
                has_node(final(self)@, q, n) == (has_node(s, q, n) && !under(p@, q)) by {
                lemma_drop_under_mem(s, p@, q, n);
            }
            assert forall|q: PathV|
                has_at(final(self)@, q) == (has_at(s, q) && !under(p@, q)) by {
                lemma_drop_under_mem(s, p@, q, NodeV::Dir);
            }
        }
    }

    /// Moves the subtree rooted at `src` to the fresh path `dst`.
    #[verifier::rlimit(100)]
    #[verifier::spinoff_prover]
    pub fn rename_tree(&mut self, src: &FsPath, dst: &FsPath)
        requires
            wf(old(self)@),
            has_at(old(self)@, src@),
            src@.len() >= 1,
            dst@.len() >= 1,
            !has_at(old(self)@, dst@),
            !under(src@, dst@),
            dir_or_root(old(self)@, dst@.drop_last()),
        ensures
            final(self)@ == drop_under(old(self)@, src@) + rebased_under(
                old(self)@,
                src@,
                dst@,
            ),
            wf(final(self)@),
            total_size(final(self)@) == total_size(old(self)@),
            forall|q: PathV, n: NodeV|
                has_node(final(self)@, q, n) == (if under(dst@, q) {
                    has_node(old(self)@, rebase(q, dst@, src@), n)
                } else {
                    has_node(old(self)@, q, n) && !under(src@, q)
                }),
            forall|q: PathV|
                #[trigger] has_at(final(self)@, q) == (if under(dst@, q) {
                    has_at(old(self)@, rebase(q, dst@, src@))
                } else {
                    has_at(old(self)@, q) && !under(src@, q)
                }),
    {
        let ghost s = self@;
        let mut kept: Vec<FsEntry> = Vec::new();
        let mut moved: Vec<FsEntry> = Vec::new();
        let mut i: usize = 0;
        proof {
            crate::fspath::lemma_under_refl(src@);
        }
        while i < self.entries.len()
            invariant
                i <= self.entries@.len(),
                self@ == s,
                self@.len() == self.entries@.len(),
                under(src@, src@),
                entries_view(kept@) == drop_under(s.take(i as int), src@),
                entries_view(moved@) == rebased_under(s.take(i as int), src@, dst@),
            decreases self.entries.len() - i,
        {
            let ghost kept_pre = entries_view(kept@);
            let ghost moved_pre = entries_view(moved@);
            let e = &self.entries[i];
            proof {
                assert(s.take(i + 1).drop_last() =~= s.take(i as int));
                assert(s.take(i + 1).last() == s[i as int]);
                assert(e@ == s[i as int]);
            }
            if src.is_ancestor_of(&e.path) {
                let np = src.rebased(&e.path, dst);
                let nn = dup_node(&e.node);
                moved.push(FsEntry { path: np, node: nn });
                proof {
                    assert(entries_view(moved@) =~= moved_pre.push(
                        EntryV { path: rebase(s[i as int].path, src@, dst@), node: s[i as int].node },
                    ));
                }
            } else {
                kept.push(dup_entry(e));
                proof {
                    assert(entries_view(kept@) =~= kept_pre.push(s[i as int]));
                }
            }
            i = i + 1;
        }
        proof {
            assert(s.take(s.len() as int) =~= s);
        }
        let ghost kept_v = entries_view(kept@);
        let ghost moved_v = entries_view(moved@);
        kept.append(&mut moved);
        proof {
            assert(entries_view(kept@) =~= kept_v + moved_v);
        }
        self.entries = kept;
        proof {
            let a = drop_under(s, src@);
            let b = rebased_under(s, src@, dst@);
            assert(self@ == a + b);
            lemma_derived_uniq(s, src@, src@);
            assert forall|q: PathV, n: NodeV| has_node(a, q, n) implies has_node(s, q, n) by {
                lemma_drop_under_mem(s, src@, q, n);
            }
            assert forall|q: PathV, k: int|
                has_at(a, q) && 1 <= k < q.len() implies has_at(a, #[trigger] q.take(k)) by {
                lemma_drop_under_mem(s, src@, q, NodeV::Dir);
                let m = choose|m: int| 0 <= m < s.len() && s[m].path == q;
                assert(has_at(s, s[m].path.take(k)));
                crate::fspath::lemma_under_take(q, k);
                if under(src@, q.take(k)) {
                    crate::fspath::lemma_under_trans(src@, q.take(k), q);
                    assert(false);
                }
                lemma_drop_under_mem(s, src@, q.take(k), NodeV::Dir);
            }
            assert forall|k: int| 1 <= k < dst@.len() implies has_at(a, #[trigger] dst@.take(k)) by {
                assert(dst@.drop_last() =~= dst@.take(dst@.len() - 1));
                assert(has_at(s, dst@.take(k))) by {
                    if k == dst@.len() - 1 {
                    } else {
                        let m = choose|m: int| 0 <= m < s.len() && s[m].path == dst@.take(
                            dst@.len() - 1,
                        );
                        assert(s[m].path.take(k) =~= dst@.take(k));
                        assert(has_at(s, s[m].path.take(k)));
                    }
                }
                crate::fspath::lemma_under_take(dst@, k);
                if under(src@, dst@.take(k)) {
                    crate::fspath::lemma_under_trans(src@, dst@.take(k), dst@);
                    assert(false);
                }
                lemma_drop_under_mem(s, src@, dst@.take(k), NodeV::Dir);
            }
            lemma_size_split(s, src@);
            lemma_graft_wf(a, s, src@, dst@);
            lemma_nothing_under_fresh(s, dst@);
            assert forall|q: PathV, n: NodeV|
                has_node(self@, q, n) == (if under(dst@, q) {
                    has_node(s, rebase(q, dst@, src@), n)
                } else {
                    has_node(s, q, n) && !under(src@, q)
                }) by {
                lemma_concat_mem(a, b, q, n);
                lemma_drop_under_mem(s, src@, q, n);
                lemma_rebased_mem(s, src@, dst@, q, n);
                if under(dst@, q) && has_node(s, q, n) {
                    let m = choose|m: int| 0 <= m < s.len() && s[m].path == q && s[m].node == n;
                    assert(has_at(s, q));
                }
            }
            assert forall|q: PathV|
                #[trigger] has_at(self@, q) == (if under(dst@, q) {
                    has_at(s, rebase(q, dst@, src@))
                } else {
                    has_at(s, q) && !under(src@, q)
                }) by {
                lemma_concat_mem(a, b, q, NodeV::Dir);
                lemma_drop_under_mem(s, src@, q, NodeV::Dir);
                lemma_rebased_mem(s, src@, dst@, q, NodeV::Dir);
                assert(has_at(self@, q) == (has_at(a, q) || has_at(b, q)));
                assert(has_at(a, q) == (has_at(s, q) && !under(src@, q)));
                assert(has_at(b, q) == (under(dst@, q) && has_at(s, rebase(q, dst@, src@))));
            }
        }
    }

    /// Copies the subtree rooted at `src` to the fresh path `dst`.
    #[verifier::rlimit(100)]
    #[verifier::spinoff_prover]
    pub fn copy_tree(&mut self, src: &FsPath, dst: &FsPath)
        requires
            wf(old(self)@),
            has_at(old(self)@, src@),
            src@.len() >= 1,
            dst@.len() >= 1,
            !has_at(old(self)@, dst@),
            dir_or_root(old(self)@, dst@.drop_last()),
            total_size(old(self)@) + subtree_size(old(self)@, src@) <= u64::MAX,
        ensures
            final(self)@ == old(self)@ + rebased_under(old(self)@, src@, dst@),
            wf(final(self)@),
            total_size(final(self)@) == total_size(old(self)@) + subtree_size(
                old(self)@,
                src@,
            ),
            forall|q: PathV, n: NodeV|
                has_node(final(self)@, q, n) == (has_node(old(self)@, q, n) || (under(dst@, q)
                    && has_node(old(self)@, rebase(q, dst@, src@), n))),
            forall|q: PathV|
                #[trigger] has_at(final(self)@, q) == (has_at(old(self)@, q) || (under(dst@, q)
                    && has_at(old(self)@, rebase(q, dst@, src@)))),
    {
        let ghost s = self@;
        let n0 = self.entries.len();
        let mut i: usize = 0;
        while i < n0
            invariant
                i <= n0,
                n0 == s.len(),
                self@.len() == self.entries@.len(),
                self@ == s + rebased_under(s.take(i as int), src@, dst@),
            decreases n0 - i,
        {
            let ghost cur = self@;
            let e = &self.entries[i];
            proof {
                assert(self@[i as int] == s[i as int]);
                assert(e@ == s[i as int]);
                assert(s.take(i + 1).drop_last() =~= s.take(i as int));
                assert(s.take(i + 1).last() == s[i as int]);
            }
            if src.is_ancestor_of(&e.path) {
                let np = src.rebased(&e.path, dst);
                let nn = dup_node(&e.node);
                self.entries.push(FsEntry { path: np, node: nn });
                proof {
                    assert(self@ =~= cur.push(
                        EntryV { path: rebase(s[i as int].path, src@, dst@), node: s[i as int].node },
                    ));
                    assert(self@ =~= s + rebased_under(s.take(i + 1), src@, dst@));
                }
            }
            i = i + 1;
        }
        proof {
            assert(s.take(s.len() as int) =~= s);
            let b = rebased_under(s, src@, dst@);
            assert(self@ == s + b);
            assert forall|q: PathV, n: NodeV| has_node(s, q, n) implies has_node(s, q, n) by {}
            assert forall|q: PathV, k: int|
                has_at(s, q) && 1 <= k < q.len() implies has_at(s, #[trigger] q.take(k)) by {
                let m = choose|m: int| 0 <= m < s.len() && s[m].path == q;
                assert(has_at(s, s[m].path.take(k)));
            }
            assert forall|k: int| 1 <= k < dst@.len() implies has_at(s, #[trigger] dst@.take(k)) by {
                assert(dst@.drop_last() =~= dst@.take(dst@.len() - 1));
                if k == dst@.len() - 1 {
                } else {
                    let m = choose|m: int| 0 <= m < s.len() && s[m].path == dst@.take(
                        dst@.len() - 1,
                    );
                    assert(s[m].path.take(k) =~= dst@.take(k));
                    assert(has_at(s, s[m].path.take(k)));
                }
            }
            lemma_graft_wf(s, s, src@, dst@);
            assert forall|q: PathV, n: NodeV|
                has_node(self@, q, n) == (has_node(s, q, n) || (under(dst@, q) && has_node(
                    s,
                    rebase(q, dst@, src@),
                    n,
                ))) by {
                lemma_concat_mem(s, b, q, n);
                lemma_rebased_mem(s, src@, dst@, q, n);
            }
            assert forall|q: PathV|
                #[trigger] has_at(self@, q) == (has_at(s, q) || (under(dst@, q) && has_at(
                    s,
                    rebase(q, dst@, src@),
                ))) by {
                lemma_concat_mem(s, b, q, NodeV::Dir);
                lemma_rebased_mem(s, src@, dst@, q, NodeV::Dir);
                assert(has_at(self@, q) == (has_at(s, q) || has_at(b, q)));
                assert(has_at(b, q) == (under(dst@, q) && has_at(s, rebase(q, dst@, src@))));
            }
        }
    }
}

/// Nothing in a well-formed store lies under an absent path.
pub proof fn lemma_nothing_under_fresh(s: Seq<EntryV>, d: PathV)
    requires
        wf(s),
        !has_at(s, d),
        d.len() >= 1,
    ensures
        forall|q: PathV| has_at(s, q) ==> !under(d, q),
{
    assert forall|q: PathV| has_at(s, q) implies !under(d, q) by {
        if under(d, q) {
            let i = choose|i: int| 0 <= i < s.len() && s[i].path == q;
            if q.len() == d.len() {
                assert(q.take(d.len() as int) =~= q);
                assert(has_at(s, d));
            } else {
                assert(has_at(s, s[i].path.take(d.len() as int)));
            }
        }
    }
}

/// Grafting the relocated subtree of `src` onto a base store `a` keeps
/// well-formedness, provided `a` is a uniquely-pathed, ancestor-closed
/// sub-store of `s` that still holds every ancestor of `dst`.
#[verifier::rlimit(100)]
#[verifier::spinoff_prover]
proof fn lemma_graft_wf(a: Seq<EntryV>, s: Seq<EntryV>, src: PathV, dst: PathV)
    requires
        wf(s),
        has_at(s, src),
        src.len() >= 1,
        dst.len() >= 1,
        !has_at(s, dst),
        dir_or_root(s, dst.drop_last()),
        uniq(a),
        forall|q: PathV, n: NodeV| has_node(a, q, n) ==> has_node(s, q, n),
        forall|q: PathV, k: int| has_at(a, q) && 1 <= k < q.len() ==> has_at(a, #[trigger] q.take(k)),
        forall|k: int| 1 <= k < dst.len() ==> has_at(a, #[trigger] dst.take(k)),
        total_size(a) + subtree_size(s, src) <= u64::MAX,
    ensures
        wf(a + rebased_under(s, src, dst)),
        total_size(a + rebased_under(s, src, dst)) == total_size(a) + subtree_size(s, src),
{
    let b = rebased_under(s, src, dst);
    let s2 = a + b;
    lemma_nothing_under_fresh(s, dst);
    lemma_derived_uniq(s, src, dst);
    assert(dst.drop_last() =~= dst.take(dst.len() - 1));
    // Membership of `a` entries in `s`, and of `b` entries as relocations.
    assert forall|i: int| 0 <= i < a.len() implies has_node(s, #[trigger] a[i].path, a[i].node)
        && !under(dst, a[i].path) by {
        assert(has_node(a, a[i].path, a[i].node));
        assert(has_at(s, a[i].path)) by {
            let m = choose|m: int| 0 <= m < s.len() && s[m].path == a[i].path && s[m].node
                == a[i].node;
            assert(s[m].path == a[i].path);
        }
    }
    assert forall|i: int| 0 <= i < b.len() implies {
        let r = rebase((#[trigger] b[i]).path, dst, src);
        &&& under(dst, b[i].path)
        &&& has_node(s, r, b[i].node)
        &&& under(src, r)
        &&& rebase(r, src, dst) == b[i].path
        &&& r.len() == b[i].path.len() - dst.len() + src.len()
    } by {
        assert(has_node(b, b[i].path, b[i].node));
        lemma_rebased_mem(s, src, dst, b[i].path, b[i].node);
        let r = rebase(b[i].path, dst, src);
        assert(r.take(src.len() as int) =~= src);
        crate::fspath::lemma_rebase_round(r, src, dst);
        assert(rebase(r, src, dst) =~= b[i].path);
    }
    // Unique paths.
    assert forall|i: int, j: int| 0 <= i < j < s2.len() implies s2[i].path != s2[j].path by {
        if i < a.len() && j >= a.len() {
            assert(s2[i] == a[i] && s2[j] == b[j - a.len()]);
            if s2[i].path == s2[j].path {
                assert(under(dst, a[i].path));
            }
        } else if i < a.len() {
            assert(s2[i] == a[i] && s2[j] == a[j]);
        } else {
            assert(s2[i] == b[i - a.len()] && s2[j] == b[j - a.len()]);
        }
    }
    // Non-empty paths.
    assert forall|i: int| 0 <= i < s2.len() implies (#[trigger] s2[i].path).len() >= 1 by {
        if i < a.len() {
            let m = choose|m: int| 0 <= m < s.len() && s[m].path == a[i].path && s[m].node
                == a[i].node;
            assert(s[m].path.len() >= 1);
        } else {
            assert(under(dst, b[i - a.len()].path));
        }
    }
    // Ancestors present.
    assert forall|i: int, k: int|
        0 <= i < s2.len() && 1 <= k < s2[i].path.len() implies has_at(
        s2,
        #[trigger] s2[i].path.take(k),
    ) by {
        let q = s2[i].path;
        if i < a.len() {
            assert(has_at(a, q)) by {
                assert(a[i].path == q);
            }
            assert(has_at(a, q.take(k)));
            lemma_concat_mem(a, b, q.take(k), NodeV::Dir);
        } else {
            let e = b[i - a.len()];
            let r = rebase(q, dst, src);
            if k >= dst.len() {
                let kk = k - dst.len() + src.len();
                crate::fspath::lemma_rebase_take(r, src, dst, k);
                assert(q.take(k) == rebase(r.take(kk), src, dst));
                assert(has_at(s, r.take(kk))) by {
                    if kk == src.len() {
                        assert(r.take(src.len() as int) =~= src);
                    } else {
                        let m = choose|m: int| 0 <= m < s.len() && s[m].path == r;
                        assert(has_at(s, s[m].path.take(kk)));
                    }
                }
                assert(has_at(b, q.take(k))) by {
                    crate::fspath::lemma_rebase_round(r.take(kk), src, dst);
                    lemma_rebased_mem(s, src, dst, q.take(k), NodeV::Dir);
                }
                lemma_concat_mem(a, b, q.take(k), NodeV::Dir);
            } else {
                assert(q.take(k) =~= dst.take(k)) by {
                    assert(forall|m: int| 0 <= m < dst.len() ==> q[m] == q.take(
                        dst.len() as int,
                    )[m]);
                }
                assert(has_at(a, dst.take(k)));
                lemma_concat_mem(a, b, dst.take(k), NodeV::Dir);
            }
        }
    }
    // Inner nodes are directories.
    assert forall|i: int, j: int|
        0 <= i < s2.len() && 0 <= j < s2.len() && under(
            #[trigger] s2[i].path,
            #[trigger] s2[j].path,
        ) && s2[i].path.len() < s2[j].path.len() implies s2[i].node is Dir by {
        let x = s2[i];
        let y = s2[j];
        if i < a.len() && j < a.len() {
            let mi = choose|m: int| 0 <= m < s.len() && s[m].path == x.path && s[m].node == x.node;
            let mj = choose|m: int| 0 <= m < s.len() && s[m].path == y.path && s[m].node == y.node;
            assert(under(s[mi].path, s[mj].path));
        } else if i < a.len() && j >= a.len() {
            // `x` is a strict ancestor of a grafted entry.
            if x.path.len() >= dst.len() {
                assert(x.path.take(dst.len() as int) =~= dst) by {
                    assert(forall|m: int| 0 <= m < x.path.len() ==> x.path[m] == y.path.take(
                        x.path.len() as int,
                    )[m]);
                    assert(forall|m: int| 0 <= m < dst.len() ==> y.path[m] == y.path.take(
                        dst.len() as int,
                    )[m]);
                }
                assert(under(dst, x.path));
                assert(false);
            } else {
                assert(x.path =~= dst.take(x.path.len() as int)) by {
                    assert(forall|m: int| 0 <= m < x.path.len() ==> x.path[m] == y.path.take(
                        x.path.len() as int,
                    )[m]);
                    assert(forall|m: int| 0 <= m < dst.len() ==> y.path[m] == y.path.take(
                        dst.len() as int,
                    )[m]);
                }
                let parent = dst.take(dst.len() - 1);
                let mi = choose|m: int|
                    0 <= m < s.len() && s[m].path == x.path && s[m].node == x.node;
                let mp = choose|m: int| 0 <= m < s.len() && s[m].path == parent;
                if x.path.len() == dst.len() - 1 {
                    assert(x.path == parent);
                    lemma_node_at(s, mi);
                    assert(node_at(s, parent) is Dir);
                } else {
                    assert(under(s[mi].path, s[mp].path)) by {
                        assert(parent.take(x.path.len() as int) =~= dst.take(
                            x.path.len() as int,
                        ));
                    }
                    assert(s[mi].node is Dir);
                }
            }
        } else if i >= a.len() && j < a.len() {
            // A grafted entry cannot sit strictly above a base entry.
            assert(y.path.take(dst.len() as int) =~= dst) by {
                assert(forall|m: int| 0 <= m < x.path.len() ==> x.path[m] == y.path.take(
                    x.path.len() as int,
                )[m]);
                assert(forall|m: int| 0 <= m < dst.len() ==> x.path[m] == x.path.take(
                    dst.len() as int,
                )[m]);
            }
            assert(under(dst, y.path));
            assert(false);
        } else {
            let rx = rebase(x.path, dst, src);
            let ry = rebase(y.path, dst, src);
            crate::fspath::lemma_rebase_preserves_under(rx, ry, src, dst);
            assert(under(rx, ry));
            let mi = choose|m: int| 0 <= m < s.len() && s[m].path == rx && s[m].node == x.node;
            let mj = choose|m: int| 0 <= m < s.len() && s[m].path == ry && s[m].node == y.node;
            assert(under(s[mi].path, s[mj].path));
        }
    }
    lemma_size_concat(a, b);
    lemma_size_rebased(s, src, dst);
}

/// Creating a fresh entry below an existing directory keeps well-formedness.
proof fn lemma_create_wf(s: Seq<EntryV>, e: EntryV)
    requires
        wf(s),
        !has_at(s, e.path),
        e.path.len() >= 1,
        dir_or_root(s, e.path.drop_last()),
        total_size(s) + node_size(e.node) <= u64::MAX,
    ensures
        wf(s.push(e)),
{
    let s2 = s.push(e);
    let p = e.path;
    assert forall|i: int, j: int| 0 <= i < j < s2.len() implies s2[i].path != s2[j].path by {
        if j == s.len() {
            if s2[i].path == p {
                assert(has_at(s, p));
            }
        }
    }
    assert(p.drop_last() =~= p.take(p.len() - 1));
    assert forall|i: int, k: int|
        0 <= i < s2.len() && 1 <= k < s2[i].path.len() implies has_at(
        s2,
        #[trigger] s2[i].path.take(k),
    ) by {
        if i < s.len() {
            assert(has_at(s, s[i].path.take(k)));
            lemma_mem_push(s, e, s[i].path.take(k), NodeV::Dir);
        } else {
            if k == p.len() - 1 {
                assert(has_at(s, p.take(k)));
            } else {
                // A shorter prefix of `p` is a prefix of its parent.
                let parent = p.take(p.len() - 1);
                assert(has_at(s, parent));
                let m = choose|m: int| 0 <= m < s.len() && s[m].path == parent;
                assert(s[m].path.take(k) =~= p.take(k));
                assert(has_at(s, p.take(k)));
            }
            lemma_mem_push(s, e, p.take(k), NodeV::Dir);
        }
    }
    assert forall|i: int, j: int|
        0 <= i < s2.len() && 0 <= j < s2.len() && under(
            #[trigger] s2[i].path,
            #[trigger] s2[j].path,
        ) && s2[i].path.len() < s2[j].path.len() implies s2[i].node is Dir by {
        if i < s.len() && j < s.len() {
        } else if i < s.len() && j == s.len() {
            // An existing strict ancestor of the new entry must be a directory.
            let a = s2[i].path;
            if a.len() == p.len() - 1 {
                assert(a =~= p.take(p.len() - 1)) by {
                    assert(p.take(a.len() as int) == a);
                }
                lemma_node_at(s, i);
                assert(s2[i].node is Dir);
            } else {
                let parent = p.take(p.len() - 1);
                let m = choose|m: int| 0 <= m < s.len() && s[m].path == parent;
                assert(under(a, parent)) by {
                    assert(parent.take(a.len() as int) =~= p.take(a.len() as int));
                }
                assert(s[i].node is Dir);
            }
        } else {
            // The new entry cannot be a strict ancestor of an existing one:
            // its path would already be present.
            let b = s2[j].path;
            assert(j < s.len());
            assert(b.take(p.len() as int) == p);
            assert(has_at(s, s[j].path.take(p.len() as int)));
        }
    }
    lemma_size_push(s, e);
}

/// Removing a subtree keeps well-formedness.
proof fn lemma_remove_wf(s: Seq<EntryV>, p: PathV)
    requires
        wf(s),
    ensures
        wf(drop_under(s, p)),
{
    let s2 = drop_under(s, p);
    lemma_derived_uniq(s, p, p);
    assert forall|i: int| 0 <= i < s2.len() implies (#[trigger] s2[i].path).len() >= 1 by {
        assert(has_node(s2, s2[i].path, s2[i].node));
        lemma_drop_under_mem(s, p, s2[i].path, s2[i].node);
        let m = choose|m: int| 0 <= m < s.len() && s[m].path == s2[i].path && s[m].node == s2[i].node;
        assert(s[m].path.len() >= 1);
    }
    assert forall|i: int, k: int|
        0 <= i < s2.len() && 1 <= k < s2[i].path.len() implies has_at(
        s2,
        #[trigger] s2[i].path.take(k),
    ) by {
        let q = s2[i].path;
        assert(has_node(s2, q, s2[i].node));
        lemma_drop_under_mem(s, p, q, s2[i].node);
        let m = choose|m: int| 0 <= m < s.len() && s[m].path == q;
        assert(has_at(s, s[m].path.take(k)));
        crate::fspath::lemma_under_take(q, k);
        if under(p, q.take(k)) {
            crate::fspath::lemma_under_trans(p, q.take(k), q);
            assert(false);
        }
        lemma_drop_under_mem(s, p, q.take(k), NodeV::Dir);
    }
    assert forall|i: int, j: int|
        0 <= i < s2.len() && 0 <= j < s2.len() && under(
            #[trigger] s2[i].path,
            #[trigger] s2[j].path,
        ) && s2[i].path.len() < s2[j].path.len() implies s2[i].node is Dir by {
        lemma_drop_under_mem(s, p, s2[i].path, s2[i].node);
        lemma_drop_under_mem(s, p, s2[j].path, s2[j].node);
        assert(has_node(s2, s2[i].path, s2[i].node));
        assert(has_node(s2, s2[j].path, s2[j].node));
        let a = choose|a: int| 0 <= a < s.len() && s[a].path == s2[i].path && s[a].node == s2[i].node;
        let b = choose|b: int| 0 <= b < s.len() && s[b].path == s2[j].path && s[b].node == s2[j].node;
        assert(under(s[a].path, s[b].path));
    }
    lemma_size_split(s, p);
    lemma_size_nonneg(keep_under(s, p));
}

/// An identical copy of a node.
pub fn dup_node(n: &FsNode) -> (r: FsNode)
    ensures
        r@ == n@,
{
    match n {
        FsNode::Dir => FsNode::Dir,
        FsNode::File(bytes) => FsNode::File(dup_bytes(bytes)),
    }
}

/// An identical copy of an entry.
pub fn dup_entry(e: &FsEntry) -> (r: FsEntry)
    ensures
        r@ == e@,
{
    FsEntry { path: e.path.dup(), node: dup_node(&e.node) }
}

/// An identical copy of a byte vector.
pub fn dup_bytes(v: &Vec<u8>) -> (r: Vec<u8>)
    ensures
        r@ == v@,
{
    let mut r: Vec<u8> = Vec::new();
    let mut i: usize = 0;
    while i < v.len()
        invariant
            i <= v.len(),
            r@ == v@.take(i as int),
        decreases v.len() - i,
    {
        r.push(v[i]);
        proof {
            assert(v@.take(i as int).push(v@[i as int]) =~= v@.take(i + 1));
        }
        i = i + 1;
    }
    proof {
        assert(v@.take(v@.len() as int) =~= v@);
    }
    r
}

} // verus!
