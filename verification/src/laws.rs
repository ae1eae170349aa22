//! The engine's inversion laws: undoing a record is an exact inverse of
//! the forward operation that produced it.

use vstd::prelude::*;

use crate::fsmodel::{
    EntryV, NodeV, drop_under, has_at, has_node, node_at, rebased_under, uniq, wf,
};
use crate::fspath::{FsPath, PathV, rebase, under};
use crate::ops::{OpRecord, ren_ok, rename_f, undo_ok, undo_step};

verus! {

/// Membership in a renamed store, with no well-formedness assumptions:
/// the entries not under `from`, plus the relocated copies.
pub proof fn lemma_rename_f_mem(s: Seq<EntryV>, from: PathV, to: PathV, q: PathV, n: NodeV)
    ensures
        has_node(rename_f(s, from, to), q, n) == ((has_node(s, q, n) && !under(from, q)) || (
        under(to, q) && has_node(s, rebase(q, to, from), n))),
        has_at(rename_f(s, from, to), q) == ((has_at(s, q) && !under(from, q)) || (under(to, q)
            && has_at(s, rebase(q, to, from)))),
{
    crate::fsmodel::lemma_concat_mem(drop_under(s, from), rebased_under(s, from, to), q, n);
    crate::fsmodel::lemma_drop_under_mem(s, from, q, n);
    crate::fsmodel::lemma_rebased_mem(s, from, to, q, n);
}

/// Undoing a `Created` record removes exactly the created path and nothing
/// else, for any freshly created file or empty directory.
pub proof fn lemma_undo_created_removes_exactly(s: Seq<EntryV>, p: FsPath)
    requires
        wf(s),
        has_at(s, p@),
        forall|q: PathV| under(p@, q) && #[trigger] has_at(s, q) ==> q == p@,
    ensures
        undo_ok(s, OpRecord::Created { path: p }),
        !has_at(undo_step(s, OpRecord::Created { path: p }), p@),
        forall|q: PathV, n: NodeV|
            q != p@ ==> #[trigger] has_node(undo_step(s, OpRecord::Created { path: p }), q, n)
                == has_node(s, q, n),
        forall|q: PathV|
            q != p@ ==> #[trigger] has_at(undo_step(s, OpRecord::Created { path: p }), q)
                == has_at(s, q),
{
    let s2 = undo_step(s, OpRecord::Created { path: p });
    crate::fspath::lemma_under_refl(p@);
    assert forall|q: PathV, n: NodeV|
        q != p@ implies #[trigger] has_node(s2, q, n) == has_node(s, q, n) by {
        crate::fsmodel::lemma_drop_under_mem(s, p@, q, n);
        if has_node(s, q, n) && under(p@, q) {
            let i = choose|i: int| 0 <= i < s.len() && s[i].path == q && s[i].node == n;
            assert(has_at(s, q));
        }
    }
    assert forall|q: PathV| q != p@ implies #[trigger] has_at(s2, q) == has_at(s, q) by {
        crate::fsmodel::lemma_drop_under_mem(s, p@, q, NodeV::Dir);
    }
    crate::fsmodel::lemma_drop_under_mem(s, p@, p@, NodeV::Dir);
}

/// Renaming a subtree and renaming it back restores the original store
/// exactly, and the inverse rename is always possible.
pub proof fn lemma_rename_round_trip(s: Seq<EntryV>, from: FsPath, to: FsPath)
    requires
        wf(s),
        ren_ok(s, from@, to@),
    ensures
        undo_ok(rename_f(s, from@, to@), OpRecord::Renamed { from, to }),
        forall|q: PathV, n: NodeV|
            #[trigger] has_node(
                undo_step(rename_f(s, from@, to@), OpRecord::Renamed { from, to }),
                q,
                n,
            ) == has_node(s, q, n),
        forall|q: PathV|
            #[trigger] has_at(
                undo_step(rename_f(s, from@, to@), OpRecord::Renamed { from, to }),
                q,
            ) == has_at(s, q),
{
    let s1 = rename_f(s, from@, to@);
    let s2 = undo_step(s1, OpRecord::Renamed { from, to });
    assert(s2 == rename_f(s1, to@, from@));
    crate::fsmodel::lemma_nothing_under_fresh(s, to@);
    // `to` is not an ancestor of `from`.
    assert(!under(to@, from@)) by {
        if under(to@, from@) {
            if to@.len() == from@.len() {
                assert(from@.take(to@.len() as int) =~= from@);
                assert(has_at(s, to@));
            } else {
                let i = choose|i: int| 0 <= i < s.len() && s[i].path == from@;
                assert(has_at(s, s[i].path.take(to@.len() as int)));
            }
            assert(false);
        }
    }
    // Pointwise round trip.
    assert forall|q: PathV, n: NodeV| #[trigger] has_node(s2, q, n) == has_node(s, q, n) by {
        lemma_rename_f_mem(s1, to@, from@, q, n);
        lemma_rename_f_mem(s, from@, to@, q, n);
        if under(from@, q) {
            crate::fspath::lemma_rebase_round(q, from@, to@);
            lemma_rename_f_mem(s, from@, to@, rebase(q, from@, to@), n);
            crate::fspath::lemma_rebase_round(rebase(q, from@, to@), to@, from@);
            if has_node(s, q, n) {
                let i = choose|i: int| 0 <= i < s.len() && s[i].path == q && s[i].node == n;
                assert(has_at(s, q));
            }
            if under(to@, q) {
                if to@.len() <= from@.len() {
                    crate::fspath::lemma_under_antisym(to@, from@, q);
                    assert(false);
                } else {
                    crate::fspath::lemma_under_antisym(from@, to@, q);
                    assert(under(from@, to@));
                    assert(false);
                }
            }
        } else {
            if under(to@, q) {
                // `q` sits in the moved block of `s1` and moves back.
                let r = rebase(q, to@, from@);
                crate::fspath::lemma_rebase_round(q, to@, from@);
                if has_node(s, q, n) {
                    let i = choose|i: int|
                        0 <= i < s.len() && s[i].path == q && s[i].node == n;
                    assert(has_at(s, q));
                    assert(false);
                }
            }
        }
    }
    assert forall|q: PathV| #[trigger] has_at(s2, q) == has_at(s, q) by {
        lemma_rename_f_mem(s1, to@, from@, q, NodeV::Dir);
        lemma_rename_f_mem(s, from@, to@, q, NodeV::Dir);
        if under(from@, q) {
            crate::fspath::lemma_rebase_round(q, from@, to@);
            lemma_rename_f_mem(s, from@, to@, rebase(q, from@, to@), NodeV::Dir);
            crate::fspath::lemma_rebase_round(rebase(q, from@, to@), to@, from@);
            if under(to@, q) {
                if to@.len() <= from@.len() {
                    crate::fspath::lemma_under_antisym(to@, from@, q);
                } else {
                    crate::fspath::lemma_under_antisym(from@, to@, q);
                }
                assert(false);
            }
        } else {
            if under(to@, q) {
                crate::fspath::lemma_rebase_round(q, to@, from@);
            }
        }
    }
    // The inverse rename is possible: `to` now exists, `from` is free, and
    // the parent of `from` is untouched.
    assert(ren_ok(s1, to@, from@)) by {
        lemma_rename_f_mem(s, from@, to@, to@, NodeV::Dir);
        crate::fspath::lemma_under_refl(to@);
        crate::fspath::lemma_under_refl(from@);
        crate::fspath::lemma_rebase_round(from@, from@, to@);
        assert(rebase(from@, from@, to@) =~= to@);
        assert(rebase(to@, to@, from@) =~= from@);
        assert(has_at(s1, to@));
        lemma_rename_f_mem(s, from@, to@, from@, NodeV::Dir);
        crate::fspath::lemma_under_refl(from@);
        assert(!has_at(s1, from@)) by {
            if under(to@, from@) {
                assert(false);
            }
        }
        let parent = from@.drop_last();
        if parent.len() >= 1 {
            let n0 = node_at(s, parent);
            crate::fsmodel::lemma_has_node_at(s, parent, n0);
            lemma_rename_f_mem(s, from@, to@, parent, n0);
            assert(!under(from@, parent));
            assert(has_node(s1, parent, n0));
            assert(uniq(s1)) by {
                lemma_rename_f_uniq(s, from@, to@);
            }
            crate::fsmodel::lemma_has_node_at(s1, parent, n0);
        }
    }
}

/// A rename keeps paths pairwise distinct.
proof fn lemma_rename_f_uniq(s: Seq<EntryV>, from: PathV, to: PathV)
    requires
        wf(s),
        ren_ok(s, from, to),
    ensures
        uniq(rename_f(s, from, to)),
{
    let a = drop_under(s, from);
    let b = rebased_under(s, from, to);
    crate::fsmodel::lemma_derived_uniq(s, from, to);
    crate::fsmodel::lemma_nothing_under_fresh(s, to);
    crate::fsmodel::lemma_rebased_all_under(s, from, to);
    assert forall|i: int, j: int|
        0 <= i < j < rename_f(s, from, to).len() implies rename_f(s, from, to)[i].path
        != rename_f(s, from, to)[j].path by {
        let s2 = rename_f(s, from, to);
        if i < a.len() && j >= a.len() {
            assert(s2[i] == a[i] && s2[j] == b[j - a.len()]);
            if s2[i].path == s2[j].path {
                assert(crate::fsmodel::has_node(a, a[i].path, a[i].node));
                crate::fsmodel::lemma_drop_under_mem(s, from, a[i].path, a[i].node);
                assert(has_at(s, a[i].path)) by {
                    let m = choose|m: int|
                        0 <= m < s.len() && s[m].path == a[i].path && s[m].node == a[i].node;
                }
                assert(under(to, b[j - a.len()].path));
            }
        } else if i < a.len() {
            assert(s2[i] == a[i] && s2[j] == a[j]);
        } else {
            assert(s2[i] == b[i - a.len()] && s2[j] == b[j - a.len()]);
        }
    }
}

/// Undoing a `Deleted` record restores the deleted subtree exactly when
/// its original path is still free.
pub proof fn lemma_undo_deleted_round_trip(s: Seq<EntryV>, original: FsPath, trash: FsPath)
    requires
        wf(s),
        ren_ok(s, original@, trash@),
    ensures
        undo_ok(rename_f(s, original@, trash@), OpRecord::Deleted { original, trash }),
        forall|q: PathV, n: NodeV|
            #[trigger] has_node(
                undo_step(
                    rename_f(s, original@, trash@),
                    OpRecord::Deleted { original, trash },
                ),
                q,
                n,
            ) == has_node(s, q, n),
{
    lemma_rename_round_trip(s, original, trash);
    assert(undo_step(rename_f(s, original@, trash@), OpRecord::Deleted { original, trash })
        == undo_step(
        rename_f(s, original@, trash@),
        OpRecord::Renamed { from: original, to: trash },
    ));
    assert(undo_ok(rename_f(s, original@, trash@), OpRecord::Deleted { original, trash })
        == undo_ok(
        rename_f(s, original@, trash@),
        OpRecord::Renamed { from: original, to: trash },
    ));
}

/// When something else occupies the original path again, undoing the
/// `Deleted` record is refused outright rather than overwriting it.
pub proof fn lemma_undo_deleted_refused_when_occupied(
    s: Seq<EntryV>,
    original: FsPath,
    trash: FsPath,
)
    requires
        has_at(s, original@),
    ensures
        !undo_ok(s, OpRecord::Deleted { original, trash }),
{
}

} // verus!
