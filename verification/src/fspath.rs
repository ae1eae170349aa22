//! Filesystem paths as sequences of name components.
//!
//! A path is a list of non-empty component names below an implicit root;
//! the root itself is the empty path.  All reasoning about the filesystem
//! model is phrased over the view `Seq<Seq<char>>`.

use vstd::prelude::*;

verus! {

/// The mathematical value of a path: its components' character sequences.
pub type PathV = Seq<Seq<char>>;

/// `p` is `q` or an ancestor of `q` (component-wise prefix).
pub open spec fn under(p: PathV, q: PathV) -> bool {
    p.len() <= q.len() && q.take(p.len() as int) == p
}

/// `q`, which lies under `src`, relocated to lie under `dst` instead.
pub open spec fn rebase(q: PathV, src: PathV, dst: PathV) -> PathV {
    dst + q.skip(src.len() as int)
}

/// Being an ancestor is reflexive.
pub proof fn lemma_under_refl(p: PathV)
    ensures
        under(p, p),
{
    assert(p.take(p.len() as int) =~= p);
}

/// Every take-prefix of a path is an ancestor of it.
pub proof fn lemma_under_take(q: PathV, k: int)
    requires
        0 <= k <= q.len(),
    ensures
        under(q.take(k), q),
        q.take(k).len() == k,
{
    assert(q.take(q.take(k).len() as int) =~= q.take(k));
}

/// Being an ancestor is transitive.
pub proof fn lemma_under_trans(a: PathV, b: PathV, c: PathV)
    requires
        under(a, b),
        under(b, c),
    ensures
        under(a, c),
{
    assert(c.take(a.len() as int) =~= b.take(a.len() as int));
}

/// Two ancestors of one path are ordered by length.
pub proof fn lemma_under_antisym(a: PathV, b: PathV, c: PathV)
    requires
        under(a, c),
        under(b, c),
        a.len() <= b.len(),
    ensures
        under(a, b),
{
    assert forall|i: int| 0 <= i < a.len() implies b.take(a.len() as int)[i] == a[i] by {
        assert(b[i] == c.take(b.len() as int)[i]);
        assert(a[i] == c.take(a.len() as int)[i]);
    }
    assert(b.take(a.len() as int) =~= a);
}

/// Relocating a path under `dst` and back restores it.
pub proof fn lemma_rebase_round(q: PathV, src: PathV, dst: PathV)
    requires
        under(src, q),
    ensures
        under(dst, rebase(q, src, dst)),
        rebase(q, src, dst).len() == dst.len() + q.len() - src.len(),
        rebase(rebase(q, src, dst), dst, src) == q,
{
    let r = rebase(q, src, dst);
    assert(r.take(dst.len() as int) =~= dst);
    assert(rebase(r, dst, src) =~= q) by {
        assert(forall|i: int| 0 <= i < src.len() ==> q[i] == src[i]);
    }
}

/// Relocation preserves the ancestor relation within the moved subtree.
pub proof fn lemma_rebase_preserves_under(a: PathV, b: PathV, src: PathV, dst: PathV)
    requires
        under(src, a),
        under(src, b),
    ensures
        under(a, b) == under(rebase(a, src, dst), rebase(b, src, dst)),
{
    let ra = rebase(a, src, dst);
    let rb = rebase(b, src, dst);
    if under(a, b) {
        assert(rb.take(ra.len() as int) =~= ra) by {
            assert(forall|i: int| 0 <= i < a.len() ==> b[i] == a[i]);
            assert(forall|i: int| 0 <= i < src.len() ==> a[i] == src[i] && b[i] == src[i]);
        }
    }
    if under(ra, rb) {
        assert(a.len() <= b.len());
        assert forall|i: int| 0 <= i < a.len() implies b.take(a.len() as int)[i] == a[i] by {
            if i < src.len() {
                assert(a[i] == a.take(src.len() as int)[i]);
                assert(b[i] == b.take(src.len() as int)[i]);
            } else {
                let j = dst.len() + i - src.len();
                assert(ra[j] == a.skip(src.len() as int)[j - dst.len()]);
                assert(rb[j] == b.skip(src.len() as int)[j - dst.len()]);
                assert(ra[j] == rb.take(ra.len() as int)[j]);
            }
        }
        assert(b.take(a.len() as int) =~= a);
    }
}

/// A take-prefix of a relocated path, reaching at least `dst`, is the
/// relocation of the matching take-prefix of the original path.
pub proof fn lemma_rebase_take(q: PathV, src: PathV, dst: PathV, m: int)
    requires
        under(src, q),
        dst.len() <= m <= dst.len() + q.len() - src.len(),
    ensures
        under(src, q.take(m - dst.len() + src.len())),
        rebase(q, src, dst).take(m) == rebase(q.take(m - dst.len() + src.len()), src, dst),
{
    let k = m - dst.len() + src.len();
    assert(q.take(k).take(src.len() as int) =~= q.take(src.len() as int));
    assert(rebase(q, src, dst).take(m) =~= rebase(q.take(k), src, dst));
}

/// A path within the filesystem model.
#[derive(Debug)]
pub struct FsPath {
    pub parts: Vec<String>,
}

impl View for FsPath {
    type V = PathV;

    open spec fn view(&self) -> PathV {
        Seq::new(self.parts@.len(), |i: int| self.parts@[i]@)
    }
}

impl PartialEq for FsPath {
    fn eq(&self, other: &Self) -> (r: bool) {
        if self.parts.len() != other.parts.len() {
            proof {
                assert(self@.len() != other@.len());
            }
            return false;
        }
        let mut i: usize = 0;
        while i < self.parts.len()
            invariant
                i <= self.parts.len(),
                self.parts.len() == other.parts.len(),
                forall|j: int| 0 <= j < i ==> self@[j] == other@[j],
            decreases self.parts.len() - i,
        {
            if !(self.parts[i] == other.parts[i]) {
                proof {
                    assert(self@[i as int] != other@[i as int]);
                }
                return false;
            }
            i = i + 1;
        }
        proof {
            assert(self@ =~= other@);
        }
        true
    }
}

impl vstd::std_specs::cmp::PartialEqSpecImpl for FsPath {
    open spec fn obeys_eq_spec() -> bool {
        true
    }

    open spec fn eq_spec(&self, other: &Self) -> bool {
        self@ == other@
    }
}

impl FsPath {
    /// The root path, with no components.
    pub fn root() -> (r: FsPath)
        ensures
            r@ =~= Seq::<Seq<char>>::empty(),
    {
        FsPath { parts: Vec::new() }
    }

    /// A path made of the given components.
    pub fn new(parts: Vec<String>) -> (r: FsPath)
        ensures
            r@.len() == parts@.len(),
            forall|i: int| 0 <= i < parts@.len() ==> r@[i] == parts@[i]@,
    {
        FsPath { parts }
    }

    /// The number of components.
    pub fn depth(&self) -> (n: usize)
        ensures
            n == self@.len(),
    {
        self.parts.len()
    }

    /// An identical copy of the path.
    pub fn dup(&self) -> (r: FsPath)
        ensures
            r@ == self@,
    {
        let mut parts: Vec<String> = Vec::new();
        let mut i: usize = 0;
        while i < self.parts.len()
            invariant
                i <= self.parts.len(),
                parts@.len() == i,
                forall|j: int| 0 <= j < i ==> parts@[j]@ == self@[j],
            decreases self.parts.len() - i,
        {
            parts.push(self.parts[i].clone());
            i = i + 1;
        }
        let r = FsPath { parts };
        proof {
            assert(r@ =~= self@);
        }
        r
    }

    /// This path with `name` appended as a final component.
    pub fn join(&self, name: &str) -> (r: FsPath)
        ensures
            r@ == self@.push(name@),
    {
        let mut r = self.dup();
        r.parts.push(name.to_owned());
        proof {
            assert(r@ =~= self@.push(name@));
        }
        r
    }

    /// The path without its final component, or `None` at the root.
    pub fn parent(&self) -> (r: Option<FsPath>)
        ensures
            self@.len() == 0 ==> r is None,
            self@.len() > 0 ==> r is Some && r->Some_0@ == self@.drop_last(),
    {
        if self.parts.len() == 0 {
            return None;
        }
        let mut p = self.dup();
        let _last = p.parts.pop();
        proof {
            assert(p@ =~= self@.drop_last());
        }
        Some(p)
    }

    /// The final component, or `None` at the root.
    pub fn file_name(&self) -> (r: Option<String>)
        ensures
            self@.len() == 0 ==> r is None,
            self@.len() > 0 ==> r is Some && r->Some_0@ == self@.last(),
    {
        if self.parts.len() == 0 {
            return None;
        }
        Some(self.parts[self.parts.len() - 1].clone())
    }

    /// The first `k` components of this path.
    pub fn prefix(&self, k: usize) -> (r: FsPath)
        requires
            k <= self@.len(),
        ensures
            r@ == self@.take(k as int),
    {
        let mut parts: Vec<String> = Vec::new();
        let mut i: usize = 0;
        while i < k
            invariant
                i <= k <= self.parts@.len(),
                parts@.len() == i,
                forall|j: int| 0 <= j < i ==> parts@[j]@ == self@[j],
            decreases k - i,
        {
            parts.push(self.parts[i].clone());
            i = i + 1;
        }
        let r = FsPath { parts };
        proof {
            assert(r@ =~= self@.take(k as int));
        }
        r
    }

    /// Whether `self` is `other` or one of its ancestors.
    pub fn is_ancestor_of(&self, other: &FsPath) -> (r: bool)
        ensures
            r == under(self@, other@),
    {
        if self.parts.len() > other.parts.len() {
            proof {
                assert(!under(self@, other@));
            }
            return false;
        }
        let mut i: usize = 0;
        while i < self.parts.len()
            invariant
                i <= self.parts.len(),
                self.parts.len() <= other.parts.len(),
                forall|j: int| 0 <= j < i ==> self@[j] == other@[j],
            decreases self.parts.len() - i,
        {
            if !(self.parts[i] == other.parts[i]) {
                proof {
                    assert(other@.take(self@.len() as int)[i as int] != self@[i as int]);
                }
                return false;
            }
            i = i + 1;
        }
        proof {
            assert(other@.take(self@.len() as int) =~= self@);
        }
        true
    }

    /// `other`, which lies under `src == self`, relocated under `dst`.
    pub fn rebased(&self, other: &FsPath, dst: &FsPath) -> (r: FsPath)
        requires
            under(self@, other@),
        ensures
            r@ == rebase(other@, self@, dst@),
    {
        let mut r = dst.dup();
        let mut i: usize = self.parts.len();
        while i < other.parts.len()
            invariant
                self.parts.len() <= i <= other.parts.len(),
                under(self@, other@),
                r@.len() == dst@.len() + i - self@.len(),
                forall|j: int| 0 <= j < dst@.len() ==> r@[j] == dst@[j],
            forall|j: int|
                dst@.len() <= j < r@.len() ==> r@[j] == other@[j - dst@.len() + self@.len()],
            decreases other.parts.len() - i,
        {
            let ghost r_old = r@;
            r.parts.push(other.parts[i].clone());
            proof {
                assert(r@ =~= r_old.push(other@[i as int]));
            }
            i = i + 1;
        }
        proof {
            assert(r@ =~= rebase(other@, self@, dst@));
        }
        r
    }
}

} // verus!
