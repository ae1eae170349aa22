//! The filesystem mutation engine: synchronous primitives, recursive
//! copy/move with streamed progress, trash-based deletion, batch paste and
//! directory-size scanning, and a bounded undo history whose entries are
//! exact inverses of the forward operations.
//!
//! Every operation works on the in-memory filesystem model of
//! [`crate::fsmodel`]; the surrounding binary performs the matching disk
//! calls and owns the worker threads and channels, handing the engine plain
//! values and taking plain values back.

use vstd::prelude::*;

use crate::fsmodel::{
    Fs, FsNode, NodeV, dir_or_root, has_at, has_node, keep_under, node_at, node_size,
    subtree_size, total_size, wf,
};
use crate::fspath::{FsPath, PathV, rebase, under};
use crate::strutil::{chars_of, dec_rep, push_dec, string_of};

verus! {

/// Copy-intent (`Yank`) versus move-intent (`Cut`) for a pending paste.
#[derive(Clone, Copy, PartialEq, Eq, Structural)]
pub enum RegisterOp {
    Yank,
    Cut,
}

/// The clipboard: paths marked for a later paste, and the intent.
pub struct Register {
    pub paths: Vec<FsPath>,
    pub op: RegisterOp,
}

/// The minimal facts describing one completed mutation, enough to invert it.
#[derive(Debug, PartialEq)]
pub enum OpRecord {
    Copied { src: FsPath, dst: FsPath },
    Moved { src: FsPath, dst: FsPath },
    Deleted { original: FsPath, trash: FsPath },
    Created { path: FsPath },
    Renamed { from: FsPath, to: FsPath },
}

/// The error taxonomy of the engine.
#[derive(Clone, Copy, PartialEq, Eq, Structural, Debug)]
pub enum FcError {
    NotFound,
    AlreadyExists,
    NotADirectory,
    InvalidInput,
}

/// Capacity of the undo history.
pub const MAX_UNDO: usize = 50;

/// A bounded LIFO history of non-empty batches of records; pushing beyond
/// the capacity evicts the oldest batch.
pub struct UndoStack {
    entries: Vec<Vec<OpRecord>>,
}

impl View for UndoStack {
    type V = Seq<Seq<OpRecord>>;

    closed spec fn view(&self) -> Seq<Seq<OpRecord>> {
        Seq::new(self.entries@.len(), |i: int| self.entries@[i]@)
    }
}

impl UndoStack {
    /// An empty history.
    pub fn new() -> (r: UndoStack)
        ensures
            r@ == Seq::<Seq<OpRecord>>::empty(),
    {
        let r = UndoStack { entries: Vec::new() };
        proof {
            assert(r@ =~= Seq::<Seq<OpRecord>>::empty());
        }
        r
    }

    /// The number of stored batches.
    pub fn len(&self) -> (n: usize)
        ensures
            n == self@.len(),
    {
        self.entries.len()
    }

    /// Appends a batch; an empty batch is ignored, and the oldest batch is
    /// evicted when the capacity would be exceeded.
    pub fn push(&mut self, records: Vec<OpRecord>)
        ensures
            records@.len() == 0 ==> final(self)@ == old(self)@,
            records@.len() > 0 && old(self)@.len() < MAX_UNDO ==> final(self)@ == old(self)@.push(
                records@,
            ),
            records@.len() > 0 && old(self)@.len() >= MAX_UNDO ==> final(self)@ == old(self)@.push(
                records@,
            ).skip(1),
            old(self)@.len() <= MAX_UNDO ==> final(self)@.len() <= MAX_UNDO,
    {
        if records.len() == 0 {
            return ;
        }
        let ghost s = self@;
        let ghost r = records@;
        self.entries.push(records);
        proof {
            assert(self@ =~= s.push(r));
        }
        if self.entries.len() > MAX_UNDO {
            let ghost t = self@;
            let _evicted = self.entries.remove(0);
            proof {
                assert(self@ =~= t.skip(1));
            }
        }
    }

    /// Removes and returns the most recent batch, if any.
    pub fn pop(&mut self) -> (r: Option<Vec<OpRecord>>)
        ensures
            old(self)@.len() == 0 ==> r is None && final(self)@ == old(self)@,
            old(self)@.len() > 0 ==> r is Some && r->Some_0@ == old(self)@.last() && final(self)@
                == old(self)@.drop_last(),
    {
        let ghost s = self@;
        let r = self.entries.pop();
        proof {
            if s.len() > 0 {
                assert(self@ =~= s.drop_last());
            } else {
                assert(self@ =~= s);
            }
        }
        r
    }
}

/// Whether a raw OS error code is the cross-device rename error.
pub fn is_cross_device(code: i32) -> (r: bool)
    ensures
        r == (code == 18),
{
    code == 18
}

/// The final component of `p`, or an error at the root.
pub fn filename(p: &FsPath) -> (r: Result<String, FcError>)
    ensures
        p@.len() == 0 ==> r is Err && r->Err_0 == FcError::InvalidInput,
        p@.len() > 0 ==> r is Ok && r->Ok_0@ == p@.last(),
{
    match p.file_name() {
        Some(name) => Ok(name),
        None => Err(FcError::InvalidInput),
    }
}

/// The trash destination for `name` deleted at time `ts`: the path
/// `trash/{ts}_{name}`.
pub fn unique_trash_name(trash: &FsPath, name: &str, ts: u128) -> (r: FsPath)
    ensures
        r@ == trash@.push(dec_rep(ts as nat) + seq!['_'] + name@),
{
    let mut cs = crate::strutil::dec_chars(ts);
    cs.push('_');
    let mut tail = chars_of(name);
    proof {
        assert(cs@ =~= dec_rep(ts as nat) + seq!['_']);
    }
    cs.append(&mut tail);
    let joined = string_of(&cs);
    trash.join(joined.as_str())
}

/// Total byte size of the subtree at `p` (a file's size, a directory's
/// recursive total, zero for a missing path).
pub fn path_size(fs: &Fs, p: &FsPath) -> (r: u64)
    requires
        wf(fs@),
    ensures
        r == subtree_size(fs@, p@),
{
    let ghost s = fs@;
    let mut acc: u64 = 0;
    let mut i: usize = 0;
    while i < fs.entries.len()
        invariant
            wf(s),
            fs@ == s,
            i <= s.len(),
            s.len() == fs.entries@.len(),
            acc == subtree_size(s.take(i as int), p@),
        decreases fs.entries.len() - i,
    {
        let e = &fs.entries[i];
        proof {
            assert(e@ == s[i as int]);
            assert(s.take(i + 1).drop_last() =~= s.take(i as int));
            assert(s.take(i + 1).last() == s[i as int]);
            crate::fsmodel::lemma_size_bounds(s, p@, i as int);
        }
        if p.is_ancestor_of(&e.path) {
            let sz: u64 = match &e.node {
                FsNode::File(bytes) => bytes.len() as u64,
                FsNode::Dir => 0,
            };
            proof {
                assert(sz == node_size(s[i as int].node));
                crate::fsmodel::lemma_size_push(keep_under(s.take(i as int), p@), s[i as int]);
            }
            acc = acc + sz;
        }
        i = i + 1;
    }
    proof {
        assert(s.take(s.len() as int) =~= s);
    }
    acc
}

/// The index of the last `'.'` in `s` at a position after the first
/// character, or `-1` when there is none (a leading dot does not begin an
/// extension).
pub open spec fn last_dot(s: Seq<char>) -> int
    decreases s.len(),
{
    if s.len() <= 1 {
        -1
    } else if s.last() == '.' {
        s.len() - 1
    } else {
        last_dot(s.drop_last())
    }
}

/// The stem of a file name: everything before its extension.
pub open spec fn stem_of(s: Seq<char>) -> Seq<char> {
    if last_dot(s) < 0 {
        s
    } else {
        s.take(last_dot(s))
    }
}

/// The extension of a file name, including its leading dot; empty when the
/// name has no extension.
pub open spec fn ext_of(s: Seq<char>) -> Seq<char> {
    if last_dot(s) < 0 {
        Seq::empty()
    } else {
        s.skip(last_dot(s))
    }
}

/// The `i`-th candidate name for resolving a collision on `name`: the name
/// itself for `i == 0`, then `stem_i.ext` for increasing `i`.
pub open spec fn cand_name(name: Seq<char>, i: nat) -> Seq<char> {
    if i == 0 {
        name
    } else {
        stem_of(name) + seq!['_'] + dec_rep(i) + ext_of(name)
    }
}

/// The `i`-th candidate destination path inside `dir`.
pub open spec fn cand(dir: PathV, name: Seq<char>, i: nat) -> PathV {
    dir.push(cand_name(name, i))
}

/// `i` is the first candidate index whose path is free in `s`.
pub open spec fn is_least_free(s: Seq<crate::fsmodel::EntryV>, dir: PathV, name: Seq<char>, i: nat) -> bool {
    !has_at(s, cand(dir, name, i)) && (forall|j: nat| j < i ==> has_at(
        s,
        #[trigger] cand(dir, name, j),
    ))
}

/// The destination the conflict resolver picks: the candidate with the
/// least free index.
pub open spec fn resolve_spec(s: Seq<crate::fsmodel::EntryV>, dir: PathV, name: Seq<char>) -> PathV {
    cand(dir, name, choose|i: nat| is_least_free(s, dir, name, i))
}

/// Any witness of the least free index names the resolver's destination.
pub proof fn lemma_least_free_unique(
    s: Seq<crate::fsmodel::EntryV>,
    dir: PathV,
    name: Seq<char>,
    i: nat,
)
    requires
        is_least_free(s, dir, name, i),
    ensures
        resolve_spec(s, dir, name) == cand(dir, name, i),
{
    let i2 = choose|i2: nat| is_least_free(s, dir, name, i2);
    assert(is_least_free(s, dir, name, i2));
    if i2 < i {
        assert(has_at(s, cand(dir, name, i2)));
        assert(false);
    }
    if i < i2 {
        assert(has_at(s, cand(dir, name, i)));
        assert(false);
    }
}

/// A name splits into its stem and extension.
proof fn lemma_stem_ext(name: Seq<char>)
    ensures
        stem_of(name) + ext_of(name) == name,
        last_dot(name) >= 0 ==> stem_of(name).len() == last_dot(name),
{
    if last_dot(name) < 0 {
        assert(stem_of(name) + ext_of(name) =~= name);
    } else {
        lemma_last_dot_range(name);
        assert(stem_of(name) + ext_of(name) =~= name);
    }
}

/// The last-dot index is within the name.
pub proof fn lemma_last_dot_range(s: Seq<char>)
    ensures
        last_dot(s) == -1 || (1 <= last_dot(s) < s.len()),
    decreases s.len(),
{
    if s.len() > 1 && s.last() != '.' {
        lemma_last_dot_range(s.drop_last());
    }
}

/// Distinct candidate indices give distinct candidate names.
proof fn lemma_cand_inj(name: Seq<char>, i: nat, j: nat)
    requires
        i < j,
    ensures
        cand_name(name, i) != cand_name(name, j),
{
    crate::strutil::lemma_dec_rep_len(j);
    lemma_stem_ext(name);
    if i == 0 {
        assert(cand_name(name, j).len() >= name.len() + 2);
    } else {
        crate::strutil::lemma_dec_rep_len(i);
        if cand_name(name, i) == cand_name(name, j) {
            let st = stem_of(name) + seq!['_'];
            let di = dec_rep(i);
            let dj = dec_rep(j);
            let ex = ext_of(name);
            assert((st + di + ex).len() == (st + dj + ex).len());
            assert(di.len() == dj.len());
            assert forall|m: int| 0 <= m < di.len() implies di[m] == dj[m] by {
                assert((st + di + ex)[st.len() + m] == di[m]);
                assert((st + dj + ex)[st.len() + m] == dj[m]);
            }
            assert(di =~= dj);
            crate::strutil::lemma_dec_rep_injective(i, j);
            assert(false);
        }
    }
}

/// Builds the executable candidate name for index `i >= 1`.
fn make_cand_name(stem: &Vec<char>, ext: &Vec<char>, i: u128) -> (r: String)
    requires
        i >= 1,
    ensures
        r@ == stem@ + seq!['_'] + dec_rep(i as nat) + ext@,
{
    let mut cs: Vec<char> = Vec::new();
    let mut stem_c = crate::strutil::dup_chars(stem);
    cs.append(&mut stem_c);
    cs.push('_');
    proof {
        assert(cs@ =~= stem@ + seq!['_']);
    }
    push_dec(i, &mut cs);
    let mut ext_c = crate::strutil::dup_chars(ext);
    cs.append(&mut ext_c);
    proof {
        assert(cs@ =~= stem@ + seq!['_'] + dec_rep(i as nat) + ext@);
    }
    string_of(&cs)
}

/// Splits `name` into stem and extension characters.
pub fn split_stem_ext(name: &str) -> (r: (Vec<char>, Vec<char>))
    ensures
        r.0@ == stem_of(name@),
        r.1@ == ext_of(name@),
{
    let cs = chars_of(name);
    let mut j: usize = cs.len();
    proof {
        assert(cs@.take(cs@.len() as int) =~= cs@);
    }
    while j > 1
        invariant
            j <= cs.len(),
            cs@ == name@,
            last_dot(name@) == last_dot(name@.take(j as int)),
        decreases j,
    {
        proof {
            assert(name@.take(j as int).drop_last() =~= name@.take(j - 1));
            assert(name@.take(j as int).last() == name@[j - 1]);
        }
        if cs[j - 1] == '.' {
            proof {
                assert(last_dot(name@.take(j as int)) == j - 1);
                lemma_stem_ext(name@);
            }
            let mut stem: Vec<char> = Vec::new();
            let mut ext: Vec<char> = Vec::new();
            let mut m: usize = 0;
            while m < j - 1
                invariant
                    m <= j - 1,
                    j <= cs.len(),
                    cs@ == name@,
                    stem@ == name@.take(j - 1).take(m as int),
                decreases j - 1 - m,
            {
                stem.push(cs[m]);
                proof {
                    assert(name@.take(j - 1).take(m as int).push(name@[m as int]) =~= name@.take(
                        j - 1,
                    ).take(m + 1));
                }
                m = m + 1;
            }
            let mut m2: usize = j - 1;
            while m2 < cs.len()
                invariant
                    j - 1 <= m2 <= cs.len(),
                    j <= cs.len(),
                    cs@ == name@,
                    ext@.len() == m2 - (j - 1),
                    forall|t: int| 0 <= t < ext@.len() ==> ext@[t] == name@[j - 1 + t],
                decreases cs.len() - m2,
            {
                ext.push(cs[m2]);
                m2 = m2 + 1;
            }
            proof {
                assert(name@.take(j - 1).take((j - 1) as int) =~= name@.take(j - 1));
                assert(stem@ =~= stem_of(name@));
                assert(ext@ =~= ext_of(name@));
            }
            return (stem, ext);
        }
        j = j - 1;
    }
    proof {
        assert(last_dot(name@) == -1) by {
            assert(last_dot(name@.take(j as int)) == -1);
        }
    }
    let stem = crate::strutil::dup_chars(&cs);
    let ext: Vec<char> = Vec::new();
    proof {
        assert(ext@ =~= ext_of(name@));
    }
    (stem, ext)
}

/// The executable candidate name for probe index `i >= 1`, shared with
/// the shell so its on-disk probing uses the very names proved
/// collision-free here.
pub fn candidate_name(name: &str, i: u128) -> (r: String)
    requires
        i >= 1,
    ensures
        r@ == cand_name(name@, i as nat),
{
    let (stem, ext) = split_stem_ext(name);
    make_cand_name(&stem, &ext, i)
}

/// Picks the first free destination for `name` inside `dir`: `dir/name` if
/// unused, else `dir/stem_1.ext`, `dir/stem_2.ext`, and so on.  Never
/// returns an existing path.
pub fn resolve_conflict(fs: &Fs, dir: &FsPath, name: &str) -> (r: FsPath)
    requires
        wf(fs@),
    ensures
        !has_at(fs@, r@),
        r@ == resolve_spec(fs@, dir@, name@),
        exists|i: nat|
            r@ == cand(dir@, name@, i) && (forall|j: nat| j < i ==> has_at(
                fs@,
                #[trigger] cand(dir@, name@, j),
            )),
{
    let ghost s = fs@;
    let first = dir.join(name);
    if !fs.exists_path(&first) {
        proof {
            assert(first@ == cand(dir@, name@, 0));
            assert(is_least_free(s, dir@, name@, 0));
            lemma_least_free_unique(s, dir@, name@, 0);
            assert(exists|i: nat|
                first@ == cand(dir@, name@, i) && (forall|j: nat| j < i ==> has_at(
                    s,
                    #[trigger] cand(dir@, name@, j),
                )));
        }
        return first;
    }
    let (stem, ext) = split_stem_ext(name);
    let n = fs.entries.len();
    let mut i: u128 = 1;
    while i <= (n as u128) + 1
        invariant
            wf(s),
            fs@ == s,
            n == s.len(),
            stem@ == stem_of(name@),
            ext@ == ext_of(name@),
            1 <= i <= (n as u128) + 2,
            forall|j: nat| j < i ==> has_at(s, #[trigger] cand(dir@, name@, j)),
        decreases (n as u128) + 2 - i,
    {
        let cname = make_cand_name(&stem, &ext, i);
        let c = dir.join(cname.as_str());
        proof {
            assert(c@ == cand(dir@, name@, i as nat));
        }
        if !fs.exists_path(&c) {
            proof {
                assert(is_least_free(s, dir@, name@, i as nat));
                lemma_least_free_unique(s, dir@, name@, i as nat);
                assert(exists|k: nat|
                    c@ == cand(dir@, name@, k) && (forall|j: nat| j < k ==> has_at(
                        s,
                        #[trigger] cand(dir@, name@, j),
                    )));
            }
            return c;
        }
        proof {
            assert forall|j: nat| j < i + 1 implies has_at(s, #[trigger] cand(dir@, name@, j)) by {
                if j == i as nat {
                    assert(has_at(s, c@));
                }
            }
        }
        i = i + 1;
    }
    // All of the n + 2 pairwise-distinct candidates exist among n entries:
    // impossible.
    proof {
        let cs_g = Seq::<PathV>::new(s.len() + 2, |j: int| cand(dir@, name@, j as nat));
        assert forall|j1: int, j2: int| 0 <= j1 < j2 < cs_g.len() implies cs_g[j1] != cs_g[j2] by {
            lemma_cand_inj(name@, j1 as nat, j2 as nat);
            assert(cand(dir@, name@, j1 as nat).last() == cand_name(name@, j1 as nat));
            assert(cand(dir@, name@, j2 as nat).last() == cand_name(name@, j2 as nat));
        }
        let ps = Seq::<PathV>::new(s.len(), |m: int| s[m].path);
        assert forall|x: PathV| cs_g.to_set().contains(x) implies ps.to_set().contains(x) by {
            let j = choose|j: int| 0 <= j < cs_g.len() && cs_g[j] == x;
            assert(has_at(s, cand(dir@, name@, j as nat)));
            let m = choose|m: int| 0 <= m < s.len() && s[m].path == x;
            assert(ps[m] == x);
        }
        cs_g.unique_seq_to_set();
        ps.lemma_cardinality_of_set();
        vstd::set_lib::lemma_len_subset(cs_g.to_set(), ps.to_set());
        assert(false);
    }
    // Unreachable: the loop above always finds a free candidate.
    dir.join(name)
}

/// `q` is a non-empty ancestor (or the whole) of `p`.
pub open spec fn anc_of(p: PathV, q: PathV) -> bool {
    q.len() >= 1 && under(q, p)
}

/// Creates every missing ancestor of `p`, and `p` itself, as directories.
/// Fails when some ancestor already exists as a file.
#[verifier::rlimit(100)]
#[verifier::spinoff_prover]
pub fn create_dir_all(fs: &mut Fs, p: &FsPath) -> (r: Result<(), FcError>)
    requires
        wf(old(fs)@),
    ensures
        wf(final(fs)@),
        r is Err ==> r->Err_0 == FcError::NotADirectory,
        r is Ok <==> (forall|k: int|
            1 <= k <= p@.len() ==> (has_at(old(fs)@, #[trigger] p@.take(k)) ==> node_at(
                old(fs)@,
                p@.take(k),
            ) is Dir)),
        r is Ok ==> (forall|q: PathV, n: NodeV|
            #[trigger] has_node(final(fs)@, q, n) == (has_node(old(fs)@, q, n) || (n
                == NodeV::Dir && !has_at(old(fs)@, q) && anc_of(p@, q)))),
        r is Ok ==> (forall|q: PathV|
            #[trigger] has_at(final(fs)@, q) == (has_at(old(fs)@, q) || anc_of(p@, q))),
        forall|q: PathV, n: NodeV|
            has_node(old(fs)@, q, n) ==> #[trigger] has_node(final(fs)@, q, n),
        forall|q: PathV, n: NodeV|
            #[trigger] has_node(final(fs)@, q, n) ==> has_node(old(fs)@, q, n) || (n
                == NodeV::Dir && !has_at(old(fs)@, q) && anc_of(p@, q)),
        forall|q: PathV|
            #[trigger] has_at(final(fs)@, q) ==> has_at(old(fs)@, q) || anc_of(p@, q),
{
    let ghost s0 = old(fs)@;
    let len = p.depth();
    let mut kk: usize = 0;
    while kk < len
        invariant
            s0 == old(fs)@,
            wf(s0),
            wf(fs@),
            len == p@.len(),
            kk <= len,
            forall|q: PathV, n: NodeV|
                #[trigger] has_node(fs@, q, n) == (has_node(s0, q, n) || (n == NodeV::Dir
                    && !has_at(s0, q) && anc_of(p@, q) && q.len() <= kk)),
            forall|q: PathV|
                #[trigger] has_at(fs@, q) == (has_at(s0, q) || (anc_of(p@, q) && q.len() <= kk)),
            forall|m: int| 1 <= m <= kk ==> has_node(fs@, #[trigger] p@.take(m), NodeV::Dir),
            forall|m: int|
                1 <= m <= kk ==> (has_at(s0, #[trigger] p@.take(m)) ==> node_at(
                    s0,
                    p@.take(m),
                ) is Dir),
        decreases len - kk,
    {
        let k = kk + 1;
        let pre = p.prefix(k);
        proof {
            crate::fspath::lemma_under_take(p@, k as int);
            assert(anc_of(p@, pre@));
            assert forall|q: PathV| anc_of(p@, q) && q.len() == k implies q == pre@ by {
                assert(q =~= p@.take(k as int)) by {
                    assert(forall|m: int| 0 <= m < q.len() ==> q[m] == p@.take(q.len() as int)[m]);
                }
            }
        }
        let ghost cur = fs@;
        if fs.exists_path(&pre) {
            if fs.is_dir(&pre) {
                proof {
                    crate::fsmodel::lemma_has_node_at(cur, pre@, NodeV::Dir);
                    if has_at(s0, pre@) {
                        let n0 = node_at(s0, pre@);
                        crate::fsmodel::lemma_has_node_at(s0, pre@, n0);
                        assert(has_node(s0, pre@, n0));
                        assert(has_node(cur, pre@, n0));
                        crate::fsmodel::lemma_has_node_at(cur, pre@, n0);
                        assert(n0 is Dir);
                    }
                    assert forall|q: PathV, n: NodeV|
                        #[trigger] has_node(fs@, q, n) == (has_node(s0, q, n) || (n == NodeV::Dir
                            && !has_at(s0, q) && anc_of(p@, q) && q.len() <= k)) by {
                        if q == pre@ && !has_at(s0, q) && n == NodeV::Dir {
                            assert(has_node(cur, pre@, NodeV::Dir));
                        }
                        if has_node(fs@, q, n) && q == pre@ && !has_at(s0, q) {
                            crate::fsmodel::lemma_has_node_at(cur, pre@, n);
                        }
                    }
                    assert forall|q: PathV|
                        #[trigger] has_at(fs@, q) == (has_at(s0, q) || (anc_of(p@, q) && q.len()
                            <= k)) by {
                        if q == pre@ {
                            assert(has_at(cur, pre@));
                        }
                    }
                }
            } else {
                proof {
                    let n0 = node_at(cur, pre@);
                    crate::fsmodel::lemma_has_node_at(cur, pre@, n0);
                    assert(has_node(cur, pre@, n0));
                    assert(!(n0 is Dir));
                    assert(has_node(s0, pre@, n0));
                    crate::fsmodel::lemma_has_node_at(s0, pre@, n0);
                    assert(has_at(s0, p@.take(k as int)) && !(node_at(
                        s0,
                        p@.take(k as int),
                    ) is Dir));
                }
                return Err(FcError::NotADirectory);
            }
        } else {
            proof {
                assert(pre@.drop_last() =~= p@.take(k - 1));
                if k > 1 {
                    assert(has_node(fs@, p@.take(k - 1), NodeV::Dir));
                    crate::fsmodel::lemma_has_node_at(cur, p@.take(k - 1), NodeV::Dir);
                }
                assert(dir_or_root(cur, pre@.drop_last()));
            }
            fs.create(&pre, FsNode::Dir);
            proof {
                assert forall|q: PathV, n: NodeV|
                    #[trigger] has_node(fs@, q, n) == (has_node(s0, q, n) || (n == NodeV::Dir
                        && !has_at(s0, q) && anc_of(p@, q) && q.len() <= k)) by {}
                assert forall|q: PathV|
                    #[trigger] has_at(fs@, q) == (has_at(s0, q) || (anc_of(p@, q) && q.len()
                        <= k)) by {}
            }
        }
        proof {
            assert(has_node(fs@, p@.take(k as int), NodeV::Dir));
        }
        kk = kk + 1;
    }
    proof {
        assert forall|q: PathV|
            #[trigger] has_at(fs@, q) == (has_at(s0, q) || anc_of(p@, q)) by {
            if anc_of(p@, q) {
                assert(q.len() <= p@.len());
            }
        }
        assert forall|q: PathV, n: NodeV|
            #[trigger] has_node(fs@, q, n) == (has_node(s0, q, n) || (n == NodeV::Dir
                && !has_at(s0, q) && anc_of(p@, q))) by {
            if anc_of(p@, q) {
                assert(q.len() <= p@.len());
            }
        }
    }
    Ok(())
}

/// Creates the directory `dir/name`, with any missing ancestors.
pub fn mkdir(fs: &mut Fs, dir: &FsPath, name: &str) -> (r: Result<OpRecord, FcError>)
    requires
        wf(old(fs)@),
    ensures
        wf(final(fs)@),
        r is Err ==> r->Err_0 == FcError::NotADirectory,
        r is Ok <==> (forall|k: int|
            1 <= k <= dir@.push(name@).len() ==> (has_at(
                old(fs)@,
                #[trigger] dir@.push(name@).take(k),
            ) ==> node_at(old(fs)@, dir@.push(name@).take(k)) is Dir)),
        r is Ok ==> (r->Ok_0 matches OpRecord::Created { path } && path@ == dir@.push(name@)),
        r is Ok ==> (forall|q: PathV, n: NodeV|
            #[trigger] has_node(final(fs)@, q, n) == (has_node(old(fs)@, q, n) || (n
                == NodeV::Dir && !has_at(old(fs)@, q) && anc_of(dir@.push(name@), q)))),
        r is Ok ==> (forall|q: PathV|
            #[trigger] has_at(final(fs)@, q) == (has_at(old(fs)@, q) || anc_of(
                dir@.push(name@),
                q,
            ))),
        r is Err ==> (forall|q: PathV, n: NodeV|
            has_node(old(fs)@, q, n) ==> #[trigger] has_node(final(fs)@, q, n)),
    {
    let path = dir.join(name);
    match create_dir_all(fs, &path) {
        Ok(()) => Ok(OpRecord::Created { path }),
        Err(e) => Err(e),
    }
}

/// Creates the empty file `dir/name`; fails if the path is taken or `dir`
/// is not an existing directory.
pub fn touch(fs: &mut Fs, dir: &FsPath, name: &str) -> (r: Result<OpRecord, FcError>)
    requires
        wf(old(fs)@),
    ensures
        wf(final(fs)@),
        r is Err ==> final(fs)@ == old(fs)@,
        r is Err && r->Err_0 == FcError::AlreadyExists <==> has_at(old(fs)@, dir@.push(name@)),
        r is Err && r->Err_0 == FcError::NotFound <==> (!has_at(old(fs)@, dir@.push(name@))
            && !dir_or_root(old(fs)@, dir@)),
        r is Ok <==> (!has_at(old(fs)@, dir@.push(name@)) && dir_or_root(old(fs)@, dir@)),
        r is Ok ==> (r->Ok_0 matches OpRecord::Created { path } && path@ == dir@.push(name@)),
        r is Ok ==> (forall|q: PathV, n: NodeV|
            #[trigger] has_node(final(fs)@, q, n) == (has_node(old(fs)@, q, n) || (q
                == dir@.push(name@) && n == NodeV::File(Seq::empty())))),
        r is Ok ==> (forall|q: PathV|
            #[trigger] has_at(final(fs)@, q) == (has_at(old(fs)@, q) || q == dir@.push(name@))),
{
    let path = dir.join(name);
    if fs.exists_path(&path) {
        return Err(FcError::AlreadyExists);
    }
    let is_parent_dir = if dir.depth() == 0 {
        true
    } else {
        fs.is_dir(dir)
    };
    if !is_parent_dir {
        return Err(FcError::NotFound);
    }
    proof {
        assert(path@.drop_last() =~= dir@);
    }
    fs.create(&path, FsNode::File(Vec::new()));
    Ok(OpRecord::Created { path })
}

/// Renames `path` to `new_name` within its parent directory; fails if the
/// new name is taken, never resolving to a different name.
pub fn rename_path(fs: &mut Fs, path: &FsPath, new_name: &str) -> (r: Result<
    OpRecord,
    FcError,
>)
    requires
        wf(old(fs)@),
    ensures
        wf(final(fs)@),
        r is Err ==> final(fs)@ == old(fs)@,
        r is Err && r->Err_0 == FcError::InvalidInput <==> path@.len() == 0,
        r is Err && r->Err_0 == FcError::AlreadyExists <==> (path@.len() > 0 && has_at(
            old(fs)@,
            path@.drop_last().push(new_name@),
        )),
        r is Err && r->Err_0 == FcError::NotFound <==> (path@.len() > 0 && !has_at(
            old(fs)@,
            path@.drop_last().push(new_name@),
        ) && !has_at(old(fs)@, path@)),
        r is Ok <==> (path@.len() > 0 && !has_at(old(fs)@, path@.drop_last().push(new_name@))
            && has_at(old(fs)@, path@)),
        r is Ok ==> (r->Ok_0 matches OpRecord::Renamed { from, to } && from@ == path@ && to@
            == path@.drop_last().push(new_name@)),
        r is Ok ==> (forall|q: PathV, n: NodeV|
            #[trigger] has_node(final(fs)@, q, n) == (if under(
                path@.drop_last().push(new_name@),
                q,
            ) {
                has_node(old(fs)@, rebase(q, path@.drop_last().push(new_name@), path@), n)
            } else {
                has_node(old(fs)@, q, n) && !under(path@, q)
            })),
        r is Ok ==> (forall|q: PathV|
            #[trigger] has_at(final(fs)@, q) == (if under(path@.drop_last().push(new_name@), q) {
                has_at(old(fs)@, rebase(q, path@.drop_last().push(new_name@), path@))
            } else {
                has_at(old(fs)@, q) && !under(path@, q)
            })),
{
    let parent = match path.parent() {
        Some(parent) => parent,
        None => {
            return Err(FcError::InvalidInput);
        },
    };
    let new = parent.join(new_name);
    if fs.exists_path(&new) {
        return Err(FcError::AlreadyExists);
    }
    if !fs.exists_path(path) {
        return Err(FcError::NotFound);
    }
    proof {
        assert(new@.len() == path@.len());
        if under(path@, new@) {
            assert(new@.take(path@.len() as int) =~= new@);
            assert(has_at(fs@, new@));
        }
        crate::fsmodel::lemma_parent_is_dir(fs@, path@);
        assert(new@.drop_last() =~= parent@);
        assert(path@.drop_last() == parent@);
    }
    fs.rename_tree(path, &new);
    Ok(OpRecord::Renamed { from: path.dup(), to: new })
}

/// Removes the subtree at `p`; fails when `p` does not exist.
pub fn remove_path(fs: &mut Fs, p: &FsPath) -> (r: Result<(), FcError>)
    requires
        wf(old(fs)@),
    ensures
        wf(final(fs)@),
        r is Ok <==> has_at(old(fs)@, p@),
        r is Err ==> r->Err_0 == FcError::NotFound && final(fs)@ == old(fs)@,
        r is Ok ==> final(fs)@ == crate::fsmodel::drop_under(old(fs)@, p@),
        r is Ok ==> (forall|q: PathV, n: NodeV|
            #[trigger] has_node(final(fs)@, q, n) == (has_node(old(fs)@, q, n) && !under(
                p@,
                q,
            ))),
        r is Ok ==> (forall|q: PathV|
            #[trigger] has_at(final(fs)@, q) == (has_at(old(fs)@, q) && !under(p@, q))),
{
    if !fs.exists_path(p) {
        return Err(FcError::NotFound);
    }
    fs.remove_tree(p);
    Ok(())
}

/// Whether renaming `from` to exactly `to` can succeed on `s`.
pub open spec fn ren_ok(s: Seq<crate::fsmodel::EntryV>, from: PathV, to: PathV) -> bool {
    &&& from.len() >= 1
    &&& to.len() >= 1
    &&& !has_at(s, to)
    &&& !under(from, to)
    &&& has_at(s, from)
    &&& dir_or_root(s, to.drop_last())
}

/// The error an exact rename reports: an occupied target first, then an
/// invalid shape, then a missing source or parent.
pub open spec fn rename_err(s: Seq<crate::fsmodel::EntryV>, from: PathV, to: PathV) -> FcError {
    if has_at(s, to) {
        FcError::AlreadyExists
    } else if from.len() == 0 || to.len() == 0 || under(from, to) {
        FcError::InvalidInput
    } else {
        FcError::NotFound
    }
}

/// The store after renaming the subtree at `from` to `to`.
pub open spec fn rename_f(s: Seq<crate::fsmodel::EntryV>, from: PathV, to: PathV) -> Seq<
    crate::fsmodel::EntryV,
> {
    crate::fsmodel::drop_under(s, from) + crate::fsmodel::rebased_under(s, from, to)
}

/// Renames the subtree at `from` to exactly `to`, never resolving to a
/// different name and never overwriting.
pub fn rename_exact(fs: &mut Fs, from: &FsPath, to: &FsPath) -> (r: Result<(), FcError>)
    requires
        wf(old(fs)@),
    ensures
        wf(final(fs)@),
        r is Ok <==> ren_ok(old(fs)@, from@, to@),
        r is Err ==> final(fs)@ == old(fs)@,
        r is Err ==> (r->Err_0 == FcError::AlreadyExists || r->Err_0 == FcError::InvalidInput
            || r->Err_0 == FcError::NotFound),
        r is Err ==> r->Err_0 == rename_err(old(fs)@, from@, to@),
        r is Err && r->Err_0 == FcError::AlreadyExists <==> has_at(old(fs)@, to@),
        r is Err && r->Err_0 == FcError::InvalidInput <==> (!has_at(old(fs)@, to@) && (from@.len()
            == 0 || to@.len() == 0 || under(from@, to@))),
        r is Ok ==> final(fs)@ == rename_f(old(fs)@, from@, to@),
        r is Ok ==> (forall|q: PathV, n: NodeV|
            #[trigger] has_node(final(fs)@, q, n) == (if under(to@, q) {
                has_node(old(fs)@, rebase(q, to@, from@), n)
            } else {
                has_node(old(fs)@, q, n) && !under(from@, q)
            })),
        r is Ok ==> (forall|q: PathV|
            #[trigger] has_at(final(fs)@, q) == (if under(to@, q) {
                has_at(old(fs)@, rebase(q, to@, from@))
            } else {
                has_at(old(fs)@, q) && !under(from@, q)
            })),
{
    if fs.exists_path(to) {
        return Err(FcError::AlreadyExists);
    }
    if from.depth() == 0 || to.depth() == 0 {
        return Err(FcError::InvalidInput);
    }
    if from.is_ancestor_of(to) {
        return Err(FcError::InvalidInput);
    }
    if !fs.exists_path(from) {
        return Err(FcError::NotFound);
    }
    let parent_ok = match to.parent() {
        Some(parent) => {
            if parent.depth() == 0 {
                true
            } else {
                fs.is_dir(&parent)
            }
        },
        None => false,
    };
    proof {
        assert(to@.drop_last() =~= to@.take(to@.len() - 1));
    }
    if !parent_ok {
        return Err(FcError::NotFound);
    }
    fs.rename_tree(from, to);
    Ok(())
}

/// Every existing ancestor of `p` (and `p` itself) is a directory in `s`.
pub open spec fn dirs_ok(s: Seq<crate::fsmodel::EntryV>, p: PathV) -> bool {
    forall|k: int|
        1 <= k <= p.len() ==> (has_at(s, #[trigger] p.take(k)) ==> node_at(s, p.take(k)) is Dir)
}

/// Membership in `s` after the trash directory chain `t` has been created.
pub open spec fn mid_mem(
    s: Seq<crate::fsmodel::EntryV>,
    t: PathV,
    q: PathV,
    n: NodeV,
) -> bool {
    has_node(s, q, n) || (n == NodeV::Dir && !has_at(s, q) && anc_of(t, q))
}

/// Presence in `s` after the trash directory chain `t` has been created.
pub open spec fn mid_at(s: Seq<crate::fsmodel::EntryV>, t: PathV, q: PathV) -> bool {
    has_at(s, q) || anc_of(t, q)
}

/// The trash destination chosen for deleting `p` at time `ts`.
pub open spec fn tpath_of(trash_dir: PathV, p: PathV, ts: nat) -> PathV {
    trash_dir.push(dec_rep(ts) + seq!['_'] + p.last())
}

/// Soft-deletes `path` by creating the trash directory as needed and
/// renaming the whole subtree into it under a time-stamped unique name.
pub fn delete_path(fs: &mut Fs, path: &FsPath, trash_dir: &FsPath, ts: u128) -> (r: Result<
    OpRecord,
    FcError,
>)
    requires
        wf(old(fs)@),
    ensures
        wf(final(fs)@),
        r is Err && r->Err_0 == FcError::NotADirectory <==> !dirs_ok(old(fs)@, trash_dir@),
        r is Err && r->Err_0 == FcError::InvalidInput <==> (dirs_ok(old(fs)@, trash_dir@) && (
        path@.len() == 0 || under(path@, tpath_of(trash_dir@, path@, ts as nat)))),
        r is Err && r->Err_0 == FcError::AlreadyExists <==> (dirs_ok(old(fs)@, trash_dir@)
            && path@.len() > 0 && !under(path@, tpath_of(trash_dir@, path@, ts as nat)) && has_at(
            old(fs)@,
            tpath_of(trash_dir@, path@, ts as nat),
        )),
        r is Ok <==> (dirs_ok(old(fs)@, trash_dir@) && path@.len() > 0 && !under(
            path@,
            tpath_of(trash_dir@, path@, ts as nat),
        ) && !has_at(old(fs)@, tpath_of(trash_dir@, path@, ts as nat)) && mid_at(
            old(fs)@,
            trash_dir@,
            path@,
        )),
        r is Ok ==> (r->Ok_0 matches OpRecord::Deleted { original, trash } && original@ == path@
            && trash@ == tpath_of(trash_dir@, path@, ts as nat)),
        r is Ok ==> (forall|q: PathV, n: NodeV|
            #[trigger] has_node(final(fs)@, q, n) == (if under(
                tpath_of(trash_dir@, path@, ts as nat),
                q,
            ) {
                mid_mem(
                    old(fs)@,
                    trash_dir@,
                    rebase(q, tpath_of(trash_dir@, path@, ts as nat), path@),
                    n,
                )
            } else {
                mid_mem(old(fs)@, trash_dir@, q, n) && !under(path@, q)
            })),
        r is Ok ==> (forall|q: PathV|
            #[trigger] has_at(final(fs)@, q) == (if under(
                tpath_of(trash_dir@, path@, ts as nat),
                q,
            ) {
                mid_at(old(fs)@, trash_dir@, rebase(q, tpath_of(trash_dir@, path@, ts as nat), path@))
            } else {
                mid_at(old(fs)@, trash_dir@, q) && !under(path@, q)
            })),
{
    let ghost s0 = old(fs)@;
    match create_dir_all(fs, trash_dir) {
        Ok(()) => {
            proof {
                assert(dirs_ok(s0, trash_dir@));
            }
        },
        Err(e) => {
            proof {
                assert(!dirs_ok(s0, trash_dir@));
            }
            return Err(e);
        },
    }
    let ghost mid = fs@;
    let name = match filename(path) {
        Ok(name) => name,
        Err(e) => {
            return Err(e);
        },
    };
    let tp = unique_trash_name(trash_dir, name.as_str(), ts);
    let ghost t = tpath_of(trash_dir@, path@, ts as nat);
    proof {
        assert(tp@ == t);
    }
    if path.is_ancestor_of(&tp) {
        return Err(FcError::InvalidInput);
    }
    proof {
        if anc_of(trash_dir@, t) {
            assert(under(t, trash_dir@));
            assert(false);
        }
        assert(has_at(mid, t) == has_at(s0, t));
        assert(mid_at(s0, trash_dir@, path@) == has_at(mid, path@));
        assert(t.drop_last() =~= trash_dir@);
        if trash_dir@.len() >= 1 {
            crate::fspath::lemma_under_refl(trash_dir@);
            assert(anc_of(trash_dir@, trash_dir@));
            assert(has_at(mid, trash_dir@));
            if has_at(s0, trash_dir@) {
                assert(trash_dir@.take(trash_dir@.len() as int) =~= trash_dir@);
                let n0 = node_at(s0, trash_dir@);
                crate::fsmodel::lemma_has_node_at(s0, trash_dir@, n0);
                assert(has_node(mid, trash_dir@, n0));
                crate::fsmodel::lemma_has_node_at(mid, trash_dir@, n0);
                assert(dir_or_root(mid, trash_dir@));
            } else {
                crate::fsmodel::lemma_has_node_at(mid, trash_dir@, NodeV::Dir);
                assert(dir_or_root(mid, trash_dir@));
            }
        }
    }
    match rename_exact(fs, path, &tp) {
        Ok(()) => {
            proof {
                assert forall|q: PathV, n: NodeV|
                    #[trigger] has_node(fs@, q, n) == (if under(t, q) {
                        mid_mem(s0, trash_dir@, rebase(q, t, path@), n)
                    } else {
                        mid_mem(s0, trash_dir@, q, n) && !under(path@, q)
                    }) by {}
                assert forall|q: PathV|
                    #[trigger] has_at(fs@, q) == (if under(t, q) {
                        mid_at(s0, trash_dir@, rebase(q, t, path@))
                    } else {
                        mid_at(s0, trash_dir@, q) && !under(path@, q)
                    }) by {}
            }
            Ok(OpRecord::Deleted { original: path.dup(), trash: tp })
        },
        Err(e) => Err(e),
    }
}

/// Whether undoing one record can succeed on `s`.
pub open spec fn undo_ok(s: Seq<crate::fsmodel::EntryV>, rec: OpRecord) -> bool {
    match rec {
        OpRecord::Copied { src: _, dst } => has_at(s, dst@),
        OpRecord::Moved { src, dst } => ren_ok(s, dst@, src@),
        OpRecord::Deleted { original, trash } => ren_ok(s, trash@, original@),
        OpRecord::Created { path } => has_at(s, path@),
        OpRecord::Renamed { from, to } => ren_ok(s, to@, from@),
    }
}

/// The store after undoing one record (meaningful when `undo_ok` holds).
pub open spec fn undo_step(s: Seq<crate::fsmodel::EntryV>, rec: OpRecord) -> Seq<
    crate::fsmodel::EntryV,
> {
    match rec {
        OpRecord::Copied { src: _, dst } => crate::fsmodel::drop_under(s, dst@),
        OpRecord::Moved { src, dst } => rename_f(s, dst@, src@),
        OpRecord::Deleted { original, trash } => rename_f(s, trash@, original@),
        OpRecord::Created { path } => crate::fsmodel::drop_under(s, path@),
        OpRecord::Renamed { from, to } => rename_f(s, to@, from@),
    }
}

/// The error reported when undoing one record fails.
pub open spec fn undo_rec_err(s: Seq<crate::fsmodel::EntryV>, rec: OpRecord) -> FcError {
    match rec {
        OpRecord::Copied { src: _, dst } => FcError::NotFound,
        OpRecord::Moved { src, dst } => rename_err(s, dst@, src@),
        OpRecord::Deleted { original, trash } => rename_err(s, trash@, original@),
        OpRecord::Created { path } => FcError::NotFound,
        OpRecord::Renamed { from, to } => rename_err(s, to@, from@),
    }
}

/// Undoes one record: removes what a copy or create produced, or renames a
/// moved, deleted or renamed path back.  Restoring a deleted path fails
/// loudly when the original path is occupied again.
pub fn undo_record(fs: &mut Fs, rec: &OpRecord) -> (r: Result<(), FcError>)
    requires
        wf(old(fs)@),
    ensures
        wf(final(fs)@),
        r is Ok <==> undo_ok(old(fs)@, *rec),
        r is Ok ==> final(fs)@ == undo_step(old(fs)@, *rec),
        r is Err ==> final(fs)@ == old(fs)@,
        r is Err ==> r->Err_0 == undo_rec_err(old(fs)@, *rec),
        rec matches OpRecord::Deleted { original, trash } && has_at(old(fs)@, original@) ==> r
            == Err::<(), FcError>(FcError::AlreadyExists),
{
    match rec {
        OpRecord::Copied { src: _, dst } => remove_path(fs, dst),
        OpRecord::Moved { src, dst } => rename_exact(fs, dst, src),
        OpRecord::Deleted { original, trash } => rename_exact(fs, trash, original),
        OpRecord::Created { path } => remove_path(fs, path),
        OpRecord::Renamed { from, to } => rename_exact(fs, to, from),
    }
}

/// One inverse disk action: what undoing a record asks the shell to do.
pub enum UndoAction {
    Remove { path: FsPath },
    Rename { from: FsPath, to: FsPath },
    RestoreGuarded { from: FsPath, to: FsPath },
}

/// The inversion table of the undo engine, shared with the shell: copies
/// and creations are removed, moves and renames renamed back, and a
/// deletion restored from trash only while its original path is free.
pub fn undo_action_of(rec: &OpRecord) -> (r: UndoAction)
    ensures
        match *rec {
            OpRecord::Copied { src: _, dst } => r matches UndoAction::Remove { path } && path@
                == dst@,
            OpRecord::Created { path: created } => r matches UndoAction::Remove { path } && path@
                == created@,
            OpRecord::Moved { src, dst } => r matches UndoAction::Rename { from, to } && from@
                == dst@ && to@ == src@,
            OpRecord::Renamed { from: f0, to: t0 } => r matches UndoAction::Rename { from, to }
                && from@ == t0@ && to@ == f0@,
            OpRecord::Deleted { original, trash } => r matches UndoAction::RestoreGuarded {
                from,
                to,
            } && from@ == trash@ && to@ == original@,
        },
{
    match rec {
        OpRecord::Copied { src: _, dst } => UndoAction::Remove { path: dst.dup() },
        OpRecord::Created { path } => UndoAction::Remove { path: path.dup() },
        OpRecord::Moved { src, dst } => UndoAction::Rename { from: dst.dup(), to: src.dup() },
        OpRecord::Renamed { from, to } => UndoAction::Rename { from: to.dup(), to: from.dup() },
        OpRecord::Deleted { original, trash } => UndoAction::RestoreGuarded {
            from: trash.dup(),
            to: original.dup(),
        },
    }
}

/// Whether undoing a whole batch (most recent record first) succeeds.
pub open spec fn undo_run_ok(s: Seq<crate::fsmodel::EntryV>, recs: Seq<OpRecord>) -> bool
    decreases recs.len(),
{
    if recs.len() == 0 {
        true
    } else if !undo_ok(s, recs.last()) {
        false
    } else {
        undo_run_ok(undo_step(s, recs.last()), recs.drop_last())
    }
}

/// The store after undoing a batch, stopping at the first failure.
pub open spec fn undo_run_state(s: Seq<crate::fsmodel::EntryV>, recs: Seq<OpRecord>) -> Seq<
    crate::fsmodel::EntryV,
>
    decreases recs.len(),
{
    if recs.len() == 0 {
        s
    } else if !undo_ok(s, recs.last()) {
        s
    } else {
        undo_run_state(undo_step(s, recs.last()), recs.drop_last())
    }
}

/// The error of the first failing inversion of a batch (meaningful when
/// the run fails).
pub open spec fn undo_run_err(s: Seq<crate::fsmodel::EntryV>, recs: Seq<OpRecord>) -> FcError
    decreases recs.len(),
{
    if recs.len() == 0 {
        FcError::NotFound
    } else if !undo_ok(s, recs.last()) {
        undo_rec_err(s, recs.last())
    } else {
        undo_run_err(undo_step(s, recs.last()), recs.drop_last())
    }
}

/// The status message reported after undoing `n` operations.
pub open spec fn undone_msg(n: nat) -> Seq<char> {
    "Undone "@ + dec_rep(n) + " operation(s)"@
}

/// Undoes a batch of records in reverse insertion order, stopping at the
/// first failure; work already undone is kept.
pub fn undo(fs: &mut Fs, records: &Vec<OpRecord>) -> (r: Result<String, FcError>)
    requires
        wf(old(fs)@),
    ensures
        wf(final(fs)@),
        final(fs)@ == undo_run_state(old(fs)@, records@),
        r is Ok <==> undo_run_ok(old(fs)@, records@),
        r is Ok ==> r->Ok_0@ == undone_msg(records@.len() as nat),
        r is Err ==> r->Err_0 == undo_run_err(old(fs)@, records@),
{
    let ghost s0 = old(fs)@;
    let count = records.len();
    let mut i: usize = records.len();
    proof {
        assert(records@.take(i as int) =~= records@);
    }
    while i > 0
        invariant
            s0 == old(fs)@,
            wf(fs@),
            i <= records@.len(),
            undo_run_state(s0, records@) == undo_run_state(fs@, records@.take(i as int)),
            undo_run_ok(s0, records@) == undo_run_ok(fs@, records@.take(i as int)),
            !undo_run_ok(s0, records@) ==> undo_run_err(s0, records@) == undo_run_err(
                fs@,
                records@.take(i as int),
            ),
        decreases i,
    {
        let ghost cur = fs@;
        proof {
            assert(records@.take(i as int).drop_last() =~= records@.take(i - 1));
            assert(records@.take(i as int).last() == records@[i - 1]);
        }
        match undo_record(fs, &records[i - 1]) {
            Ok(()) => {},
            Err(e) => {
                proof {
                    assert(!undo_ok(cur, records@[i - 1]));
                    assert(undo_run_state(cur, records@.take(i as int)) == cur);
                    assert(!undo_run_ok(cur, records@.take(i as int)));
                    assert(undo_run_err(cur, records@.take(i as int)) == undo_rec_err(
                        cur,
                        records@[i - 1],
                    ));
                }
                return Err(e);
            },
        }
        i = i - 1;
    }
    proof {
        assert(records@.take(0) =~= Seq::<OpRecord>::empty());
    }
    let mut msg = chars_of("Undone ");
    push_dec(count as u128, &mut msg);
    let mut tail = chars_of(" operation(s)");
    msg.append(&mut tail);
    Ok(string_of(&msg))
}

/// A message streamed from a running paste operation.
pub enum ProgressMsg {
    Progress { bytes_done: u64, bytes_total: u64, item_index: usize, item_total: usize },
    Finished { records: Vec<OpRecord>, error: Option<String>, bytes_total: u64 },
}

/// A message streamed from a running directory-size scan.
pub enum DuMsg {
    Progress { done: usize, total: usize, current: String },
    Finished { sizes: Vec<(FsPath, u64)> },
}

/// The reported byte count of a progress message.
pub open spec fn msg_bd(m: ProgressMsg) -> u64 {
    match m {
        ProgressMsg::Progress { bytes_done, .. } => bytes_done,
        ProgressMsg::Finished { .. } => 0,
    }
}

/// Progress accounting for one paste run: raw counters plus the log of
/// messages emitted so far.
pub struct ProgressCtx {
    pub bytes_done: u64,
    pub bytes_total: u64,
    pub item_index: usize,
    pub item_total: usize,
    pub msgs: Vec<ProgressMsg>,
}

/// The accounting invariant: counters capped by the fixed total, and an
/// all-`Progress` log whose byte counts never decrease and never exceed
/// what has been counted.
pub open spec fn ctx_ok(ctx: ProgressCtx) -> bool {
    &&& ctx.bytes_done <= ctx.bytes_total
    &&& (forall|i: int|
        0 <= i < ctx.msgs@.len() ==> ((#[trigger] ctx.msgs@[i]) matches ProgressMsg::Progress {
            bytes_done,
            bytes_total,
            item_total,
            ..
        } && bytes_done <= ctx.bytes_done && bytes_total == ctx.bytes_total && item_total
            == ctx.item_total))
    &&& (forall|i: int, j: int|
        0 <= i <= j < ctx.msgs@.len() ==> msg_bd(#[trigger] ctx.msgs@[i]) <= msg_bd(
            #[trigger] ctx.msgs@[j],
        ))
}

/// The per-file message log of one copy: message `j` reports the running
/// total after the first `j + 1` copied files.
pub open spec fn copy_log(
    d0: u64,
    fsz: Seq<int>,
    bt: u64,
    ii: usize,
    it: usize,
) -> Seq<ProgressMsg> {
    Seq::new(
        fsz.len(),
        |j: int|
            ProgressMsg::Progress {
                bytes_done: (d0 + crate::fsmodel::sum_ints(fsz.take(j + 1))) as u64,
                bytes_total: bt,
                item_index: ii,
                item_total: it,
            },
    )
}

impl ProgressCtx {
    /// Appends one `Progress` message with the current counters.
    pub fn report(&mut self)
        ensures
            final(self).bytes_done == old(self).bytes_done,
            final(self).bytes_total == old(self).bytes_total,
            final(self).item_index == old(self).item_index,
            final(self).item_total == old(self).item_total,
            final(self).msgs@ == old(self).msgs@.push(
                ProgressMsg::Progress {
                    bytes_done: old(self).bytes_done,
                    bytes_total: old(self).bytes_total,
                    item_index: old(self).item_index,
                    item_total: old(self).item_total,
                },
            ),
            ctx_ok(*old(self)) ==> ctx_ok(*final(self)),
    {
        let m = ProgressMsg::Progress {
            bytes_done: self.bytes_done,
            bytes_total: self.bytes_total,
            item_index: self.item_index,
            item_total: self.item_total,
        };
        self.msgs.push(m);
    }
}

/// The sizes of the files below `p`, in store order.
fn file_sizes_under(fs: &Fs, p: &FsPath) -> (r: Vec<u64>)
    requires
        wf(fs@),
    ensures
        r@.map_values(|x: u64| x as int) == crate::fsmodel::file_sizes(keep_under(fs@, p@)),
{
    let ghost s = fs@;
    let mut out: Vec<u64> = Vec::new();
    let mut i: usize = 0;
    while i < fs.entries.len()
        invariant
            wf(s),
            fs@ == s,
            i <= s.len(),
            s.len() == fs.entries@.len(),
            out@.map_values(|x: u64| x as int) == crate::fsmodel::file_sizes(
                keep_under(s.take(i as int), p@),
            ),
        decreases fs.entries.len() - i,
    {
        let e = &fs.entries[i];
        proof {
            assert(e@ == s[i as int]);
            assert(s.take(i + 1).drop_last() =~= s.take(i as int));
            assert(s.take(i + 1).last() == s[i as int]);
        }
        if p.is_ancestor_of(&e.path) {
            proof {
                assert(keep_under(s.take(i + 1), p@) == keep_under(s.take(i as int), p@).push(
                    s[i as int],
                ));
                assert(keep_under(s.take(i + 1), p@).drop_last() =~= keep_under(
                    s.take(i as int),
                    p@,
                ));
            }
            match &e.node {
                FsNode::File(bytes) => {
                    let ghost m0 = out@.map_values(|x: u64| x as int);
                    out.push(bytes.len() as u64);
                    proof {
                        assert(out@.map_values(|x: u64| x as int) =~= m0.push(
                            node_size(s[i as int].node) as int,
                        ));
                    }
                },
                FsNode::Dir => {},
            }
        }
        i = i + 1;
    }
    proof {
        assert(s.take(s.len() as int) =~= s);
    }
    out
}

/// Copies the file or tree at `src` into `dst_dir` under a collision-free
/// name, crediting each copied file's bytes and emitting a `Progress`
/// message after it.
#[verifier::rlimit(100)]
#[verifier::spinoff_prover]
pub fn copy_path_progress(fs: &mut Fs, src: &FsPath, dst_dir: &FsPath, ctx: &mut ProgressCtx)
    -> (r: Result<OpRecord, FcError>)
    requires
        wf(old(fs)@),
        ctx_ok(*old(ctx)),
        old(ctx).bytes_done + subtree_size(old(fs)@, src@) <= old(ctx).bytes_total,
        total_size(old(fs)@) + subtree_size(old(fs)@, src@) <= u64::MAX,
    ensures
        wf(final(fs)@),
        ctx_ok(*final(ctx)),
        final(ctx).bytes_total == old(ctx).bytes_total,
        final(ctx).item_index == old(ctx).item_index,
        final(ctx).item_total == old(ctx).item_total,
        final(ctx).bytes_done >= old(ctx).bytes_done,
        final(ctx).msgs@.len() >= old(ctx).msgs@.len(),
        forall|j: int|
            0 <= j < old(ctx).msgs@.len() ==> #[trigger] final(ctx).msgs@[j] == old(
                ctx,
            ).msgs@[j],
        r is Ok ==> final(ctx).msgs@.len() > old(ctx).msgs@.len() && msg_bd(
            final(ctx).msgs@.last(),
        ) == final(ctx).bytes_done,
        r is Err ==> final(fs)@ == old(fs)@ && *final(ctx) == *old(ctx),
        r is Err && r->Err_0 == FcError::InvalidInput <==> src@.len() == 0,
        r is Ok <==> (src@.len() > 0 && has_at(old(fs)@, src@) && dir_or_root(
            old(fs)@,
            dst_dir@,
        )),
        r is Ok ==> final(ctx).bytes_done == old(ctx).bytes_done + subtree_size(
            old(fs)@,
            src@,
        ),
        r is Ok ==> final(ctx).msgs@ == old(ctx).msgs@ + (if node_at(old(fs)@, src@) is Dir {
            seq![
                ProgressMsg::Progress {
                    bytes_done: old(ctx).bytes_done,
                    bytes_total: old(ctx).bytes_total,
                    item_index: old(ctx).item_index,
                    item_total: old(ctx).item_total,
                },
            ]
        } else {
            Seq::<ProgressMsg>::empty()
        }) + copy_log(
            old(ctx).bytes_done,
            crate::fsmodel::file_sizes(keep_under(old(fs)@, src@)),
            old(ctx).bytes_total,
            old(ctx).item_index,
            old(ctx).item_total,
        ),
        r is Ok ==> (r->Ok_0 matches OpRecord::Copied { src: rs, dst: rd } && rs@ == src@
            && rd@.len() >= 1 && rd@.drop_last() == dst_dir@ && !has_at(old(fs)@, rd@)
            && rd@ == resolve_spec(old(fs)@, dst_dir@, src@.last())
            && final(fs)@ == old(fs)@ + crate::fsmodel::rebased_under(old(fs)@, src@, rd@)
            && (forall|
            q: PathV,
            n: NodeV,
        |
            #[trigger] has_node(final(fs)@, q, n) == (has_node(old(fs)@, q, n) || (under(rd@, q)
                && has_node(old(fs)@, rebase(q, rd@, src@), n)))) && (forall|q: PathV|
            #[trigger] has_at(final(fs)@, q) == (has_at(old(fs)@, q) || (under(rd@, q) && has_at(
                old(fs)@,
                rebase(q, rd@, src@),
            ))))),
{
    let ghost s0 = old(fs)@;
    if src.depth() == 0 {
        return Err(FcError::InvalidInput);
    }
    if !fs.exists_path(src) {
        return Err(FcError::NotFound);
    }
    let dstdir_ok = if dst_dir.depth() == 0 {
        true
    } else {
        fs.is_dir(dst_dir)
    };
    if !dstdir_ok {
        return Err(FcError::NotFound);
    }
    let name = match src.file_name() {
        Some(name) => name,
        None => {
            proof {
                assert(false);
            }
            return Err(FcError::InvalidInput);
        },
    };
    let dst = resolve_conflict(fs, dst_dir, name.as_str());
    proof {
        let i = choose|i: nat|
            dst@ == cand(dst_dir@, name@, i) && (forall|j: nat| j < i ==> has_at(
                fs@,
                #[trigger] cand(dst_dir@, name@, j),
            ));
        assert(dst@ == dst_dir@.push(cand_name(name@, i)));
        assert(dst@.drop_last() =~= dst_dir@);
    }
    let sizes = file_sizes_under(fs, src);
    let is_directory = fs.is_dir(src);
    proof {
        assert(name@ == src@.last());
        assert(dst@ == resolve_spec(s0, dst_dir@, src@.last()));
    }
    fs.copy_tree(src, &dst);
    if is_directory {
        ctx.report();
    }
    let ghost fsz = crate::fsmodel::file_sizes(keep_under(s0, src@));
    let ghost dirseq: Seq<ProgressMsg> = if is_directory {
        seq![
            ProgressMsg::Progress {
                bytes_done: old(ctx).bytes_done,
                bytes_total: old(ctx).bytes_total,
                item_index: old(ctx).item_index,
                item_total: old(ctx).item_total,
            },
        ]
    } else {
        Seq::<ProgressMsg>::empty()
    };
    let ghost full_log = copy_log(
        old(ctx).bytes_done,
        fsz,
        old(ctx).bytes_total,
        old(ctx).item_index,
        old(ctx).item_total,
    );
    proof {
        crate::fsmodel::lemma_file_sizes_sum(keep_under(s0, src@));
        assert(ctx.msgs@ =~= old(ctx).msgs@ + dirseq + full_log.take(0));
    }
    let mut k: usize = 0;
    while k < sizes.len()
        invariant
            ctx_ok(*ctx),
            ctx.msgs@.len() >= old(ctx).msgs@.len(),
            forall|j: int|
                0 <= j < old(ctx).msgs@.len() ==> #[trigger] ctx.msgs@[j] == old(ctx).msgs@[j],
            (k > 0 || is_directory) ==> (ctx.msgs@.len() > old(ctx).msgs@.len() && msg_bd(
                ctx.msgs@.last(),
            ) == ctx.bytes_done),
            is_directory == (has_at(s0, src@) && crate::fsmodel::node_at(s0, src@) is Dir),
            has_at(s0, src@),
            wf(s0),
            sizes@.map_values(|x: u64| x as int) == fsz,
            forall|i: int| 0 <= i < fsz.len() ==> #[trigger] fsz[i] >= 0,
            crate::fsmodel::sum_ints(fsz) == subtree_size(s0, src@),
            k <= sizes@.len(),
            ctx.bytes_total == old(ctx).bytes_total,
            ctx.item_index == old(ctx).item_index,
            ctx.item_total == old(ctx).item_total,
            ctx.bytes_done == old(ctx).bytes_done + crate::fsmodel::sum_ints(
                fsz.take(k as int),
            ),
            old(ctx).bytes_done + subtree_size(s0, src@) <= ctx.bytes_total,
            dirseq == (if is_directory {
                seq![
                    ProgressMsg::Progress {
                        bytes_done: old(ctx).bytes_done,
                        bytes_total: old(ctx).bytes_total,
                        item_index: old(ctx).item_index,
                        item_total: old(ctx).item_total,
                    },
                ]
            } else {
                Seq::<ProgressMsg>::empty()
            }),
            full_log == copy_log(
                old(ctx).bytes_done,
                fsz,
                old(ctx).bytes_total,
                old(ctx).item_index,
                old(ctx).item_total,
            ),
            ctx.msgs@ == old(ctx).msgs@ + dirseq + full_log.take(k as int),
        decreases sizes.len() - k,
    {
        proof {
            crate::fsmodel::lemma_sum_take(fsz, k as int);
            crate::fsmodel::lemma_sum_take(fsz, k + 1);
            assert(fsz.take(k + 1).drop_last() =~= fsz.take(k as int));
            assert(fsz.take(k + 1).last() == fsz[k as int]);
            assert(fsz[k as int] == sizes@.map_values(|x: u64| x as int)[k as int]);
        }
        ctx.bytes_done = ctx.bytes_done + sizes[k];
        ctx.report();
        proof {
            assert(msg_bd(full_log[k as int]) as int == old(ctx).bytes_done + crate::fsmodel::sum_ints(
                fsz.take(k + 1),
            ));
            assert(ctx.msgs@.last() == full_log[k as int]);
            assert(full_log.take(k + 1) =~= full_log.take(k as int).push(full_log[k as int]));
            assert(ctx.msgs@ =~= old(ctx).msgs@ + dirseq + full_log.take(k + 1));
        }
        k = k + 1;
    }
    proof {
        assert(fsz.take(fsz.len() as int) =~= fsz);
        assert(full_log.take(fsz.len() as int) =~= full_log);
        crate::fsmodel::lemma_size_nonneg(keep_under(s0, src@));
        if sizes@.len() == 0 {
            crate::fsmodel::lemma_file_sizes_empty(keep_under(s0, src@));
            let n0 = crate::fsmodel::node_at(s0, src@);
            crate::fsmodel::lemma_has_node_at(s0, src@, n0);
            crate::fsmodel::lemma_keep_under_mem(s0, src@, src@, n0);
            crate::fspath::lemma_under_refl(src@);
            let m = choose|m: int|
                0 <= m < keep_under(s0, src@).len() && keep_under(s0, src@)[m].path == src@
                    && keep_under(s0, src@)[m].node == n0;
            assert(n0 is Dir);
        }
        let n0 = crate::fsmodel::node_at(s0, src@);
        crate::fsmodel::lemma_has_node_at(s0, src@, n0);
        assert(is_directory == (crate::fsmodel::node_at(s0, src@) is Dir));
    }
    Ok(OpRecord::Copied { src: src.dup(), dst })
}

/// Moves the file or tree at `src` into `dst_dir` under a collision-free
/// name, crediting the full source size in one step.
#[verifier::rlimit(100)]
#[verifier::spinoff_prover]
pub fn move_path_progress(fs: &mut Fs, src: &FsPath, dst_dir: &FsPath, ctx: &mut ProgressCtx)
    -> (r: Result<OpRecord, FcError>)
    requires
        wf(old(fs)@),
        ctx_ok(*old(ctx)),
        old(ctx).bytes_done + subtree_size(old(fs)@, src@) <= old(ctx).bytes_total,
    ensures
        wf(final(fs)@),
        ctx_ok(*final(ctx)),
        final(ctx).bytes_total == old(ctx).bytes_total,
        final(ctx).item_index == old(ctx).item_index,
        final(ctx).item_total == old(ctx).item_total,
        final(ctx).bytes_done >= old(ctx).bytes_done,
        final(ctx).msgs@.len() >= old(ctx).msgs@.len(),
        forall|j: int|
            0 <= j < old(ctx).msgs@.len() ==> #[trigger] final(ctx).msgs@[j] == old(
                ctx,
            ).msgs@[j],
        r is Ok ==> final(ctx).msgs@.len() > old(ctx).msgs@.len() && msg_bd(
            final(ctx).msgs@.last(),
        ) == final(ctx).bytes_done,
        r is Err ==> final(fs)@ == old(fs)@ && *final(ctx) == *old(ctx),
        r is Err && r->Err_0 == FcError::InvalidInput <==> (src@.len() == 0 || under(
            src@,
            dst_dir@,
        )),
        r is Ok <==> (src@.len() > 0 && !under(src@, dst_dir@) && has_at(old(fs)@, src@)
            && dir_or_root(old(fs)@, dst_dir@)),
        r is Ok ==> final(ctx).bytes_done == old(ctx).bytes_done + subtree_size(
            old(fs)@,
            src@,
        ),
        r is Ok ==> final(ctx).msgs@ == old(ctx).msgs@.push(
            ProgressMsg::Progress {
                bytes_done: (old(ctx).bytes_done + subtree_size(old(fs)@, src@)) as u64,
                bytes_total: old(ctx).bytes_total,
                item_index: old(ctx).item_index,
                item_total: old(ctx).item_total,
            },
        ),
        r is Ok ==> (r->Ok_0 matches OpRecord::Moved { src: rs, dst: rd } && rs@ == src@
            && rd@.len() >= 1 && rd@.drop_last() == dst_dir@ && !has_at(old(fs)@, rd@)
            && rd@ == resolve_spec(old(fs)@, dst_dir@, src@.last())
            && final(fs)@ == rename_f(old(fs)@, src@, rd@) && (forall|q: PathV, n: NodeV|
            #[trigger] has_node(final(fs)@, q, n) == (if under(rd@, q) {
                has_node(old(fs)@, rebase(q, rd@, src@), n)
            } else {
                has_node(old(fs)@, q, n) && !under(src@, q)
            })) && (forall|q: PathV|
            #[trigger] has_at(final(fs)@, q) == (if under(rd@, q) {
                has_at(old(fs)@, rebase(q, rd@, src@))
            } else {
                has_at(old(fs)@, q) && !under(src@, q)
            }))),
{
    let ghost s0 = old(fs)@;
    if src.depth() == 0 {
        return Err(FcError::InvalidInput);
    }
    if src.is_ancestor_of(dst_dir) {
        return Err(FcError::InvalidInput);
    }
    if !fs.exists_path(src) {
        return Err(FcError::NotFound);
    }
    let dstdir_ok = if dst_dir.depth() == 0 {
        true
    } else {
        fs.is_dir(dst_dir)
    };
    if !dstdir_ok {
        return Err(FcError::NotFound);
    }
    let name = match src.file_name() {
        Some(name) => name,
        None => {
            proof {
                assert(false);
            }
            return Err(FcError::InvalidInput);
        },
    };
    let src_size = path_size(fs, src);
    let dst = resolve_conflict(fs, dst_dir, name.as_str());
    proof {
        let i = choose|i: nat|
            dst@ == cand(dst_dir@, name@, i) && (forall|j: nat| j < i ==> has_at(
                fs@,
                #[trigger] cand(dst_dir@, name@, j),
            ));
        assert(dst@ == dst_dir@.push(cand_name(name@, i)));
        assert(dst@.drop_last() =~= dst_dir@);
        assert(name@ == src@.last());
        assert(dst@ == resolve_spec(s0, dst_dir@, src@.last()));
        if under(src@, dst@) {
            if src@.len() <= dst_dir@.len() {
                assert(under(src@, dst_dir@)) by {
                    assert(forall|m: int| 0 <= m < src@.len() ==> src@[m] == dst@.take(
                        src@.len() as int,
                    )[m]);
                    assert(forall|m: int| 0 <= m < dst_dir@.len() ==> dst_dir@[m] == dst@[m]);
                    assert(dst_dir@.take(src@.len() as int) =~= src@);
                }
            } else {
                assert(src@.len() == dst@.len());
                assert(dst@.take(src@.len() as int) =~= dst@);
                assert(src@ == dst@);
                assert(has_at(s0, dst@));
            }
            assert(false);
        }
    }
    fs.rename_tree(src, &dst);
    ctx.bytes_done = ctx.bytes_done + src_size;
    ctx.report();
    proof {
        crate::fsmodel::lemma_size_nonneg(keep_under(s0, src@));
    }
    Ok(OpRecord::Moved { src: src.dup(), dst })
}

/// Computes the recursive size of each listed directory, announcing each
/// one before it is scanned and ending with the collected pairs.
pub fn du_scan(fs: &Fs, dirs: &Vec<FsPath>) -> (msgs: Vec<DuMsg>)
    requires
        wf(fs@),
    ensures
        msgs@.len() == dirs@.len() + 1,
        forall|k: int|
            0 <= k < dirs@.len() ==> ((#[trigger] msgs@[k]) matches DuMsg::Progress {
                done,
                total,
                current,
            } && done == k && total == dirs@.len() && current@ == (if dirs@[k]@.len() > 0 {
                dirs@[k]@.last()
            } else {
                Seq::<char>::empty()
            })),
        msgs@.last() matches DuMsg::Finished { sizes } && sizes@.len() == dirs@.len() && (forall|
            k: int,
        |
            0 <= k < dirs@.len() ==> (#[trigger] sizes@[k]).0@ == dirs@[k]@ && sizes@[k].1
                == subtree_size(fs@, dirs@[k]@)),
{
    let total = dirs.len();
    let mut msgs: Vec<DuMsg> = Vec::new();
    let mut sizes: Vec<(FsPath, u64)> = Vec::new();
    let mut i: usize = 0;
    while i < total
        invariant
            wf(fs@),
            total == dirs@.len(),
            i <= total,
            msgs@.len() == i,
            sizes@.len() == i,
            forall|k: int|
                0 <= k < i ==> ((#[trigger] msgs@[k]) matches DuMsg::Progress {
                    done,
                    total: t2,
                    current,
                } && done == k && t2 == dirs@.len() && current@ == (if dirs@[k]@.len() > 0 {
                    dirs@[k]@.last()
                } else {
                    Seq::<char>::empty()
                })),
            forall|k: int|
                0 <= k < i ==> (#[trigger] sizes@[k]).0@ == dirs@[k]@ && sizes@[k].1
                    == subtree_size(fs@, dirs@[k]@),
        decreases total - i,
    {
        let dir = &dirs[i];
        let current = match dir.file_name() {
            Some(name) => name,
            None => String::new(),
        };
        msgs.push(DuMsg::Progress { done: i, total, current });
        let size = path_size(fs, dir);
        sizes.push((dir.dup(), size));
        i = i + 1;
    }
    msgs.push(DuMsg::Finished { sizes });
    msgs
}

/// A cut source that already sits in the destination directory is skipped.
pub open spec fn skip_src(op: RegisterOp, p: PathV, dst_dir: PathV) -> bool {
    op == RegisterOp::Cut && p.len() >= 1 && p.drop_last() == dst_dir
}

/// The pre-scanned byte total of a list of sources.
pub open spec fn presum(s: Seq<crate::fsmodel::EntryV>, ps: Seq<FsPath>) -> int
    decreases ps.len(),
{
    if ps.len() == 0 {
        0
    } else {
        presum(s, ps.drop_last()) + subtree_size(s, ps.last()@)
    }
}

/// The bytes credited after the first `k` sources have been handled.
pub open spec fn credited(
    s: Seq<crate::fsmodel::EntryV>,
    ps: Seq<FsPath>,
    op: RegisterOp,
    dst_dir: PathV,
    k: int,
) -> int
    decreases k,
{
    if k <= 0 {
        0
    } else {
        credited(s, ps, op, dst_dir, k - 1) + (if skip_src(op, ps[k - 1]@, dst_dir) {
            0int
        } else {
            subtree_size(s, ps[k - 1]@)
        })
    }
}

/// How many of the first `k` sources are not skipped.
pub open spec fn n_processed(ps: Seq<FsPath>, op: RegisterOp, dst_dir: PathV, k: int) -> int
    decreases k,
{
    if k <= 0 {
        0
    } else {
        n_processed(ps, op, dst_dir, k - 1) + (if skip_src(op, ps[k - 1]@, dst_dir) {
            0int
        } else {
            1
        })
    }
}

/// Prefix sums of the pre-scan never exceed the full pre-scan.
proof fn lemma_presum_take(s: Seq<crate::fsmodel::EntryV>, ps: Seq<FsPath>, k: int)
    requires
        0 <= k <= ps.len(),
    ensures
        presum(s, ps.take(k)) >= 0,
        presum(s, ps.take(k)) <= presum(s, ps),
    decreases ps.len() - k,
{
    if k == ps.len() {
        assert(ps.take(k) =~= ps);
        lemma_presum_nonneg(s, ps);
    } else {
        lemma_presum_take(s, ps, k + 1);
        assert(ps.take(k + 1).drop_last() =~= ps.take(k));
        assert(ps.take(k + 1).last() == ps[k]);
        crate::fsmodel::lemma_size_nonneg(keep_under(s, ps[k]@));
        lemma_presum_nonneg(s, ps.take(k));
    }
}

/// A pre-scan of sources is non-negative.
proof fn lemma_presum_nonneg(s: Seq<crate::fsmodel::EntryV>, ps: Seq<FsPath>)
    ensures
        presum(s, ps) >= 0,
    decreases ps.len(),
{
    if ps.len() > 0 {
        lemma_presum_nonneg(s, ps.drop_last());
        crate::fsmodel::lemma_size_nonneg(keep_under(s, ps.last()@));
    }
}

/// Credited bytes never exceed the matching pre-scan prefix.
proof fn lemma_credited_le(
    s: Seq<crate::fsmodel::EntryV>,
    ps: Seq<FsPath>,
    op: RegisterOp,
    dst_dir: PathV,
    k: int,
)
    requires
        0 <= k <= ps.len(),
    ensures
        0 <= credited(s, ps, op, dst_dir, k),
        credited(s, ps, op, dst_dir, k) <= presum(s, ps.take(k)),
    decreases k,
{
    if k > 0 {
        lemma_credited_le(s, ps, op, dst_dir, k - 1);
        assert(ps.take(k).drop_last() =~= ps.take(k - 1));
        assert(ps.take(k).last() == ps[k - 1]);
        crate::fsmodel::lemma_size_nonneg(keep_under(s, ps[k - 1]@));
    }
}

/// When no source is skipped, the credited bytes equal the pre-scan.
pub proof fn lemma_credited_presum(
    s: Seq<crate::fsmodel::EntryV>,
    ps: Seq<FsPath>,
    op: RegisterOp,
    dst_dir: PathV,
    k: int,
)
    requires
        0 <= k <= ps.len(),
        forall|j: int| 0 <= j < ps.len() ==> !skip_src(op, (#[trigger] ps[j])@, dst_dir),
    ensures
        credited(s, ps, op, dst_dir, k) == presum(s, ps.take(k)),
    decreases k,
{
    if k > 0 {
        lemma_credited_presum(s, ps, op, dst_dir, k - 1);
        assert(ps.take(k).drop_last() =~= ps.take(k - 1));
        assert(ps.take(k).last() == ps[k - 1]);
    }
}

/// For pairwise non-nested sources, the pre-scan is bounded by the total
/// store size.
pub proof fn lemma_disjoint_presum(s: Seq<crate::fsmodel::EntryV>, ps: Seq<FsPath>)
    requires
        forall|k1: int, k2: int|
            0 <= k1 < ps.len() && 0 <= k2 < ps.len() && k1 != k2 ==> !under(
                (#[trigger] ps[k1])@,
                (#[trigger] ps[k2])@,
            ),
    ensures
        presum(s, ps) <= total_size(s),
        presum(s, ps) >= 0,
    decreases ps.len(),
{
    lemma_presum_nonneg(s, ps);
    crate::fsmodel::lemma_size_nonneg(s);
    if ps.len() > 0 {
        let p = ps.last()@;
        let s2 = crate::fsmodel::drop_under(s, p);
        assert forall|k1: int, k2: int|
            0 <= k1 < ps.drop_last().len() && 0 <= k2 < ps.drop_last().len() && k1 != k2 implies
            !under((#[trigger] ps.drop_last()[k1])@, (#[trigger] ps.drop_last()[k2])@) by {
            assert(ps.drop_last()[k1] == ps[k1] && ps.drop_last()[k2] == ps[k2]);
        }
        assert forall|j: int|
            0 <= j < ps.drop_last().len() implies subtree_size(s2, (#[trigger] ps.drop_last(
        )[j])@) == subtree_size(s, ps.drop_last()[j]@) by {
            let q = ps.drop_last()[j]@;
            assert(ps[j]@ == q);
            crate::fsmodel::lemma_keep_drop_commute(s, p, q);
            assert forall|i: int|
                0 <= i < keep_under(s, q).len() implies !under(
                p,
                (#[trigger] keep_under(s, q)[i]).path,
            ) by {
                let e = keep_under(s, q)[i];
                assert(crate::fsmodel::has_node(keep_under(s, q), e.path, e.node));
                crate::fsmodel::lemma_keep_under_mem(s, q, e.path, e.node);
                assert(under(q, e.path));
                if under(p, e.path) {
                    if p.len() <= q.len() {
                        crate::fspath::lemma_under_antisym(p, q, e.path);
                        assert(false);
                    } else {
                        crate::fspath::lemma_under_antisym(q, p, e.path);
                        assert(false);
                    }
                }
            }
            crate::fsmodel::lemma_drop_all_kept(keep_under(s, q), p);
        }
        assert(presum(s2, ps.drop_last()) == presum(s, ps.drop_last())) by {
            lemma_presum_congruent(s2, s, ps.drop_last());
        }
        lemma_disjoint_presum(s2, ps.drop_last());
        crate::fsmodel::lemma_size_split(s, p);
    }
}

/// Pre-scans agree when every per-source subtree size agrees.
proof fn lemma_presum_congruent(
    a: Seq<crate::fsmodel::EntryV>,
    b: Seq<crate::fsmodel::EntryV>,
    ps: Seq<FsPath>,
)
    requires
        forall|j: int|
            0 <= j < ps.len() ==> subtree_size(a, (#[trigger] ps[j])@) == subtree_size(b, ps[j]@),
    ensures
        presum(a, ps) == presum(b, ps),
    decreases ps.len(),
{
    if ps.len() > 0 {
        assert(forall|j: int|
            0 <= j < ps.drop_last().len() ==> subtree_size(a, (#[trigger] ps.drop_last()[j])@)
                == subtree_size(b, ps.drop_last()[j]@));
        lemma_presum_congruent(a, b, ps.drop_last());
        assert(ps[ps.len() - 1] == ps.last());
    }
}

/// A short status text for an engine error.
pub open spec fn err_text_of(e: FcError) -> Seq<char> {
    match e {
        FcError::NotFound => "not found"@,
        FcError::AlreadyExists => "already exists"@,
        FcError::NotADirectory => "not a directory"@,
        FcError::InvalidInput => "invalid input"@,
    }
}

/// The status text for an engine error.
pub fn err_text(e: FcError) -> (r: String)
    ensures
        r@ == err_text_of(e),
{
    match e {
        FcError::NotFound => "not found".to_owned(),
        FcError::AlreadyExists => "already exists".to_owned(),
        FcError::NotADirectory => "not a directory".to_owned(),
        FcError::InvalidInput => "invalid input".to_owned(),
    }
}

/// Acceptable paste inputs: every source is a non-root path that exists,
/// none lies above the destination directory, and no source is nested in
/// another.
pub open spec fn paste_valid(s: Seq<crate::fsmodel::EntryV>, ps: Seq<FsPath>, dst_dir: PathV) -> bool {
    &&& (forall|k: int|
        0 <= k < ps.len() ==> (#[trigger] ps[k])@.len() >= 1 && has_at(s, ps[k]@) && !under(
            ps[k]@,
            dst_dir,
        ))
    &&& (forall|k1: int, k2: int|
        0 <= k1 < ps.len() && 0 <= k2 < ps.len() && k1 != k2 ==> !under(
            (#[trigger] ps[k1])@,
            (#[trigger] ps[k2])@,
        ))
}

/// The store after pasting one source: a copy or a move to the conflict
/// resolver's destination.
pub open spec fn paste_step_f(
    s: Seq<crate::fsmodel::EntryV>,
    src: FsPath,
    op: RegisterOp,
    dst_dir: PathV,
) -> Seq<crate::fsmodel::EntryV> {
    let rd = resolve_spec(s, dst_dir, src@.last());
    if op == RegisterOp::Yank {
        s + crate::fsmodel::rebased_under(s, src@, rd)
    } else {
        rename_f(s, src@, rd)
    }
}

/// The store after pasting the first `k` sources in order, skipping the
/// self-move no-ops.
pub open spec fn paste_run(
    s: Seq<crate::fsmodel::EntryV>,
    ps: Seq<FsPath>,
    op: RegisterOp,
    dst_dir: PathV,
    k: int,
) -> Seq<crate::fsmodel::EntryV>
    decreases k,
{
    if k <= 0 {
        s
    } else {
        let prev = paste_run(s, ps, op, dst_dir, k - 1);
        if skip_src(op, ps[k - 1]@, dst_dir) {
            prev
        } else {
            paste_step_f(prev, ps[k - 1], op, dst_dir)
        }
    }
}

/// The byte total a paste reports: the pre-scanned sizes of the sources
/// that will actually be processed, or zero when the inputs are rejected.
pub open spec fn paste_total(
    s: Seq<crate::fsmodel::EntryV>,
    ps: Seq<FsPath>,
    op: RegisterOp,
    dst_dir: PathV,
) -> int {
    if paste_valid(s, ps, dst_dir) {
        credited(s, ps, op, dst_dir, ps.len() as int)
    } else {
        0
    }
}

/// The record produced for source `k`: the matching variant, naming the
/// source and the destination the resolver picked in the store of that
/// step.
pub open spec fn paste_record_ok(
    s: Seq<crate::fsmodel::EntryV>,
    ps: Seq<FsPath>,
    op: RegisterOp,
    dst_dir: PathV,
    k: int,
    recs: Seq<OpRecord>,
) -> bool {
    let j = n_processed(ps, op, dst_dir, k);
    let prev = paste_run(s, ps, op, dst_dir, k);
    let rd = resolve_spec(prev, dst_dir, ps[k]@.last());
    &&& 0 <= j < recs.len()
    &&& (op == RegisterOp::Yank ==> (recs[j] matches OpRecord::Copied { src: rs, dst: rdp }
        && rs@ == ps[k]@ && rdp@ == rd))
    &&& (op == RegisterOp::Cut ==> (recs[j] matches OpRecord::Moved { src: rs, dst: rdp } && rs@
        == ps[k]@ && rdp@ == rd))
}

/// Whether the paste loop skips this source: a cut whose parent is the
/// destination itself.
fn is_skipped(src: &FsPath, dst_dir: &FsPath, op: RegisterOp) -> (r: bool)
    ensures
        r == skip_src(op, src@, dst_dir@),
{
    if matches!(op, RegisterOp::Cut) {
        match src.parent() {
            Some(parent) => &parent == dst_dir,
            None => false,
        }
    } else {
        false
    }
}

/// Decides `paste_valid`.
fn paste_inputs_ok(fs: &Fs, paths: &Vec<FsPath>, dst_dir: &FsPath) -> (r: bool)
    requires
        wf(fs@),
    ensures
        r == paste_valid(fs@, paths@, dst_dir@),
{
    let mut k: usize = 0;
    while k < paths.len()
        invariant
            wf(fs@),
            k <= paths@.len(),
            forall|j: int|
                0 <= j < k ==> (#[trigger] paths@[j])@.len() >= 1 && has_at(fs@, paths@[j]@)
                    && !under(paths@[j]@, dst_dir@),
            forall|j: int, j2: int|
                0 <= j < k && 0 <= j2 < paths@.len() && j != j2 ==> !under(
                    (#[trigger] paths@[j])@,
                    (#[trigger] paths@[j2])@,
                ),
        decreases paths.len() - k,
    {
        let p = &paths[k];
        if p.depth() == 0 {
            return false;
        }
        if !fs.exists_path(p) {
            return false;
        }
        if p.is_ancestor_of(dst_dir) {
            return false;
        }
        let mut k2: usize = 0;
        while k2 < paths.len()
            invariant
                k < paths@.len(),
                k2 <= paths@.len(),
                p == paths@[k as int],
                forall|j2: int|
                    0 <= j2 < k2 && j2 != k ==> !under(
                        (#[trigger] paths@[k as int])@,
                        paths@[j2]@,
                    ),
            decreases paths.len() - k2,
        {
            if k2 != k && p.is_ancestor_of(&paths[k2]) {
                return false;
            }
            k2 = k2 + 1;
        }
        k = k + 1;
    }
    true
}

/// Credited bytes only grow with the bound.
proof fn lemma_credited_mono(
    s: Seq<crate::fsmodel::EntryV>,
    ps: Seq<FsPath>,
    op: RegisterOp,
    dst_dir: PathV,
    i: int,
    len: int,
)
    requires
        0 <= i <= len,
    ensures
        credited(s, ps, op, dst_dir, len) >= credited(s, ps, op, dst_dir, i),
    decreases len - i,
{
    if i < len {
        crate::fsmodel::lemma_size_nonneg(keep_under(s, ps[len - 1]@));
        lemma_credited_mono(s, ps, op, dst_dir, i, len - 1);
    }
}

/// Pastes the sources into `dst_dir` in order, copying for `Yank` and
/// moving for `Cut`, and returns the streamed message log: one initial
/// `Progress`, per-file `Progress` updates, and exactly one final
/// `Finished` carrying the records and the first error, if any.  Missing,
/// nested or destination-enclosing sources are rejected up front with the
/// error in `Finished`; a cut source already sitting in the destination is
/// skipped silently and contributes nothing to the byte total, so a
/// successful run always ends with the progress at exactly that total.
#[verifier::rlimit(100)]
#[verifier::spinoff_prover]
pub fn paste(fs: &mut Fs, paths: &Vec<FsPath>, dst_dir: &FsPath, op: RegisterOp) -> (msgs: Vec<
    ProgressMsg,
>)
    requires
        wf(old(fs)@),
        op == RegisterOp::Yank ==> 2 * total_size(old(fs)@) <= u64::MAX,
    ensures
        wf(final(fs)@),
        msgs@.len() >= 2,
        (msgs@[0] matches ProgressMsg::Progress { bytes_done, bytes_total, item_index, item_total }
            && bytes_done == 0 && bytes_total as int == paste_total(old(fs)@, paths@, op, dst_dir@)
            && item_index == 0 && item_total == paths@.len()),
        forall|j: int|
            0 <= j < msgs@.len() - 1 ==> ((#[trigger] msgs@[j]) matches ProgressMsg::Progress {
                bytes_done,
                bytes_total,
                item_total,
                ..
            } && bytes_done <= bytes_total && bytes_total as int == paste_total(
                old(fs)@,
                paths@,
                op,
                dst_dir@,
            ) && item_total == paths@.len()),
        forall|i: int, j: int|
            0 <= i <= j < msgs@.len() - 1 ==> msg_bd(#[trigger] msgs@[i]) <= msg_bd(
                #[trigger] msgs@[j],
            ),
        (msgs@.last() matches ProgressMsg::Finished { records, error, bytes_total } && bytes_total
            as int == paste_total(old(fs)@, paths@, op, dst_dir@) && (error is None <==> (
        paste_valid(old(fs)@, paths@, dst_dir@) && (dir_or_root(old(fs)@, dst_dir@) || n_processed(
            paths@,
            op,
            dst_dir@,
            paths@.len() as int,
        ) == 0))) && (error is None ==> records@.len() == n_processed(
            paths@,
            op,
            dst_dir@,
            paths@.len() as int,
        ) && msg_bd(msgs@[msgs@.len() - 2]) == bytes_total && final(fs)@ == paste_run(
            old(fs)@,
            paths@,
            op,
            dst_dir@,
            paths@.len() as int,
        ) && (forall|k: int|
            0 <= k < paths@.len() && !skip_src(op, (#[trigger] paths@[k])@, dst_dir@)
                ==> paste_record_ok(old(fs)@, paths@, op, dst_dir@, k, records@))) && (error
            is Some ==> records@.len() == 0 && final(fs)@ == old(fs)@) && (forall|j: int|
            0 <= j < records@.len() ==> ((op == RegisterOp::Yank ==> (#[trigger] records@[j])
                matches OpRecord::Copied { .. }) && (op == RegisterOp::Cut ==> records@[j] matches
                OpRecord::Moved { .. })))),
        op == RegisterOp::Yank ==> (forall|q: PathV, n: NodeV|
            has_node(old(fs)@, q, n) ==> #[trigger] has_node(final(fs)@, q, n)),
        n_processed(paths@, op, dst_dir@, paths@.len() as int) == 0 ==> final(fs)@ == old(fs)@,
{
    let ghost s0 = old(fs)@;
    // Rejected inputs stop at once with the documented error and no work.
    if !paste_inputs_ok(fs, paths, dst_dir) {
        let mut out: Vec<ProgressMsg> = Vec::new();
        out.push(
            ProgressMsg::Progress {
                bytes_done: 0,
                bytes_total: 0,
                item_index: 0,
                item_total: paths.len(),
            },
        );
        out.push(
            ProgressMsg::Finished {
                records: Vec::new(),
                error: Some(err_text(FcError::InvalidInput)),
                bytes_total: 0,
            },
        );
        proof {
            lemma_n_processed_nonneg(paths@, op, dst_dir@, paths@.len() as int);
        }
        return out;
    }
    proof {
        lemma_disjoint_presum(s0, paths@);
    }
    // Pre-scan the bytes of the sources that will actually be processed.
    let mut bytes_total: u64 = 0;
    let mut t: usize = 0;
    while t < paths.len()
        invariant
            s0 == old(fs)@,
            wf(s0),
            fs@ == s0,
            paste_valid(s0, paths@, dst_dir@),
            t <= paths@.len(),
            presum(s0, paths@) <= total_size(s0) <= u64::MAX,
            bytes_total as int == credited(s0, paths@, op, dst_dir@, t as int),
        decreases paths.len() - t,
    {
        let src = &paths[t];
        proof {
            assert(paths@[t as int] == *src);
            lemma_credited_le(s0, paths@, op, dst_dir@, t + 1);
            lemma_presum_take(s0, paths@, t + 1);
            crate::fsmodel::lemma_size_nonneg(keep_under(s0, src@));
        }
        if !is_skipped(src, dst_dir, op) {
            let sz = path_size(fs, src);
            bytes_total = bytes_total + sz;
        }
        t = t + 1;
    }
    let item_total = paths.len();
    let mut ctx = ProgressCtx {
        bytes_done: 0,
        bytes_total,
        item_index: 0,
        item_total,
        msgs: Vec::new(),
    };
    ctx.report();
    let mut records: Vec<OpRecord> = Vec::new();
    let mut i: usize = 0;
    while i < paths.len()
        invariant
            s0 == old(fs)@,
            wf(s0),
            wf(fs@),
            i <= paths@.len(),
            paste_valid(s0, paths@, dst_dir@),
            op == RegisterOp::Yank ==> 2 * total_size(s0) <= u64::MAX,
            presum(s0, paths@) <= total_size(s0) <= u64::MAX,
            ctx_ok(ctx),
            ctx.bytes_total == bytes_total,
            bytes_total as int == credited(s0, paths@, op, dst_dir@, paths@.len() as int),
            ctx.item_total == paths@.len(),
            ctx.msgs@.len() >= 1,
            (ctx.msgs@[0] matches ProgressMsg::Progress {
                bytes_done,
                bytes_total: bt0,
                item_index,
                item_total,
            } && bytes_done == 0 && bt0 == bytes_total && item_index == 0 && item_total
                == paths@.len()),
            msg_bd(ctx.msgs@.last()) == ctx.bytes_done,
            ctx.bytes_done as int == credited(s0, paths@, op, dst_dir@, i as int),
            fs@ == paste_run(s0, paths@, op, dst_dir@, i as int),
            forall|k: int|
                i <= k < paths@.len() ==> has_at(fs@, (#[trigger] paths@[k])@) && subtree_size(
                    fs@,
                    paths@[k]@,
                ) == subtree_size(s0, paths@[k]@),
            dir_or_root(fs@, dst_dir@) == dir_or_root(s0, dst_dir@),
            op == RegisterOp::Yank ==> total_size(fs@) == total_size(s0) + credited(
                s0,
                paths@,
                op,
                dst_dir@,
                i as int,
            ),
            op == RegisterOp::Cut ==> total_size(fs@) == total_size(s0),
            op == RegisterOp::Yank ==> (forall|q: PathV, n: NodeV|
                has_node(s0, q, n) ==> #[trigger] has_node(fs@, q, n)),
            records@.len() == n_processed(paths@, op, dst_dir@, i as int),
            forall|k: int|
                0 <= k < i && !skip_src(op, (#[trigger] paths@[k])@, dst_dir@)
                    ==> paste_record_ok(s0, paths@, op, dst_dir@, k, records@),
            forall|j: int|
                0 <= j < records@.len() ==> ((op == RegisterOp::Yank ==> (#[trigger] records@[j])
                    matches OpRecord::Copied { .. }) && (op == RegisterOp::Cut ==> records@[j]
                    matches OpRecord::Moved { .. })),
            n_processed(paths@, op, dst_dir@, i as int) == 0 ==> fs@ == s0,
            n_processed(paths@, op, dst_dir@, i as int) > 0 ==> dir_or_root(s0, dst_dir@),
        decreases paths.len() - i,
    {
        ctx.item_index = i;
        let src = &paths[i];
        proof {
            assert(paths@[i as int] == *src);
            lemma_credited_le(s0, paths@, op, dst_dir@, i as int);
            lemma_credited_mono(s0, paths@, op, dst_dir@, i + 1, paths@.len() as int);
            lemma_presum_take(s0, paths@, i as int);
            lemma_presum_take(s0, paths@, i + 1);
            assert(paths@.take(i + 1).drop_last() =~= paths@.take(i as int));
            assert(paths@.take(i + 1).last() == paths@[i as int]);
            crate::fsmodel::lemma_size_nonneg(keep_under(s0, src@));
        }
        if is_skipped(src, dst_dir, op) {
            proof {
                assert(skip_src(op, src@, dst_dir@));
                assert(paste_run(s0, paths@, op, dst_dir@, i + 1) == paste_run(
                    s0,
                    paths@,
                    op,
                    dst_dir@,
                    i as int,
                ));
            }
            i = i + 1;
            continue ;
        }
        proof {
            assert(!skip_src(op, src@, dst_dir@));
        }
        let ghost pre = fs@;
        let result = match op {
            RegisterOp::Yank => copy_path_progress(fs, src, dst_dir, &mut ctx),
            RegisterOp::Cut => move_path_progress(fs, src, dst_dir, &mut ctx),
        };
        match result {
            Ok(rec) => {
                let ghost recs_pre = records@;
                records.push(rec);
                proof {
                    lemma_paste_step(pre, fs@, s0, paths@, dst_dir@, op, i as int, result->Ok_0);
                    assert(fs@ == paste_step_f(pre, paths@[i as int], op, dst_dir@));
                    assert(fs@ == paste_run(s0, paths@, op, dst_dir@, i + 1));
                    lemma_n_processed_nonneg(paths@, op, dst_dir@, i as int);
                    assert(paste_record_ok(s0, paths@, op, dst_dir@, i as int, records@));
                    lemma_records_extend(
                        s0,
                        paths@,
                        op,
                        dst_dir@,
                        i as int,
                        recs_pre,
                        records@,
                    );
                }
            },
            Err(e) => {
                proof {
                    assert(!dir_or_root(pre, dst_dir@));
                    assert(!dir_or_root(s0, dst_dir@));
                    assert(n_processed(paths@, op, dst_dir@, i as int) == 0);
                    assert(records@.len() == 0);
                    assert(fs@ == s0);
                    lemma_n_processed_pos(paths@, op, dst_dir@, i as int, paths@.len() as int);
                }
                let ghost cm = ctx.msgs@;
                let mut out = ctx.msgs;
                let fin_err = Some(err_text(e));
                out.push(
                    ProgressMsg::Finished { records, error: fin_err, bytes_total },
                );
                proof {
                    assert(out@ == cm.push(out@.last()));
                    assert(out@.len() == cm.len() + 1);
                    assert(forall|j: int| 0 <= j < cm.len() ==> out@[j] == cm[j]);
                    assert(out@[0] == cm[0]);
                }
                return out;
            },
        }
        i = i + 1;
    }
    let ghost cm = ctx.msgs@;
    let mut out = ctx.msgs;
    out.push(ProgressMsg::Finished { records, error: None, bytes_total });
    proof {
        assert(out@ == cm.push(out@.last()));
        assert(out@.len() == cm.len() + 1);
        assert(forall|j: int| 0 <= j < cm.len() ==> out@[j] == cm[j]);
        assert(out@[0] == cm[0]);
        assert(out@[out@.len() - 2] == cm.last());
    }
    out
}

/// A run that has already processed a source counts it.
proof fn lemma_n_processed_pos(
    ps: Seq<FsPath>,
    op: RegisterOp,
    dst_dir: PathV,
    i: int,
    len: int,
)
    requires
        0 <= i <= len == ps.len(),
        i < len ==> !skip_src(op, ps[i]@, dst_dir),
    ensures
        i < len ==> n_processed(ps, op, dst_dir, len) > 0,
        n_processed(ps, op, dst_dir, len) >= n_processed(ps, op, dst_dir, i),
    decreases len - i,
{
    if i < len {
        lemma_n_processed_nonneg(ps, op, dst_dir, i);
        lemma_n_processed_mono(ps, op, dst_dir, i + 1, len);
    }
}

/// `n_processed` is never negative.
proof fn lemma_n_processed_nonneg(ps: Seq<FsPath>, op: RegisterOp, dst_dir: PathV, i: int)
    requires
        0 <= i,
    ensures
        n_processed(ps, op, dst_dir, i) >= 0,
    decreases i,
{
    if i > 0 {
        lemma_n_processed_nonneg(ps, op, dst_dir, i - 1);
    }
}

/// `n_processed` is non-decreasing in its bound.
proof fn lemma_n_processed_mono(ps: Seq<FsPath>, op: RegisterOp, dst_dir: PathV, i: int, len: int)
    requires
        0 <= i <= len,
    ensures
        n_processed(ps, op, dst_dir, len) >= n_processed(ps, op, dst_dir, i),
    decreases len - i,
{
    if i < len {
        lemma_n_processed_mono(ps, op, dst_dir, i + 1, len);
    }
}

/// Appending the record of step `i` keeps every earlier record claim.
#[verifier::spinoff_prover]
proof fn lemma_records_extend(
    s0: Seq<crate::fsmodel::EntryV>,
    ps: Seq<FsPath>,
    op: RegisterOp,
    dst_dir: PathV,
    i: int,
    recs_pre: Seq<OpRecord>,
    recs: Seq<OpRecord>,
)
    requires
        0 <= i < ps.len(),
        recs.len() == recs_pre.len() + 1,
        forall|j: int| 0 <= j < recs_pre.len() ==> #[trigger] recs[j] == recs_pre[j],
        forall|k: int|
            0 <= k < i && !skip_src(op, (#[trigger] ps[k])@, dst_dir) ==> paste_record_ok(
                s0,
                ps,
                op,
                dst_dir,
                k,
                recs_pre,
            ),
        !skip_src(op, ps[i]@, dst_dir),
        paste_record_ok(s0, ps, op, dst_dir, i, recs),
    ensures
        forall|k: int|
            0 <= k < i + 1 && !skip_src(op, (#[trigger] ps[k])@, dst_dir) ==> paste_record_ok(
                s0,
                ps,
                op,
                dst_dir,
                k,
                recs,
            ),
{
    assert forall|k: int|
        0 <= k < i + 1 && !skip_src(op, (#[trigger] ps[k])@, dst_dir) implies paste_record_ok(
        s0,
        ps,
        op,
        dst_dir,
        k,
        recs,
    ) by {
        if k < i {
            assert(paste_record_ok(s0, ps, op, dst_dir, k, recs_pre));
            lemma_n_processed_nonneg(ps, op, dst_dir, k);
            lemma_n_processed_mono(ps, op, dst_dir, k, i);
            assert(recs[n_processed(ps, op, dst_dir, k)] == recs_pre[n_processed(
                ps,
                op,
                dst_dir,
                k,
            )]);
        }
    }
}

/// One successful paste step preserves the unprocessed sources, the
/// destination directory, and the size bookkeeping.
#[verifier::rlimit(100)]
#[verifier::spinoff_prover]
proof fn lemma_paste_step(
    pre: Seq<crate::fsmodel::EntryV>,
    post: Seq<crate::fsmodel::EntryV>,
    s0: Seq<crate::fsmodel::EntryV>,
    ps: Seq<FsPath>,
    dst_dir: PathV,
    op: RegisterOp,
    i: int,
    rec: OpRecord,
)
    requires
        wf(pre),
        wf(post),
        0 <= i < ps.len(),
        forall|k: int| 0 <= k < ps.len() ==> (#[trigger] ps[k])@.len() >= 1,
        forall|k: int| 0 <= k < ps.len() ==> !under((#[trigger] ps[k])@, dst_dir),
        forall|k1: int, k2: int|
            0 <= k1 < ps.len() && 0 <= k2 < ps.len() && k1 != k2 ==> !under(
                (#[trigger] ps[k1])@,
                (#[trigger] ps[k2])@,
            ),
        forall|k: int|
            i <= k < ps.len() ==> has_at(pre, (#[trigger] ps[k])@) && subtree_size(pre, ps[k]@)
                == subtree_size(s0, ps[k]@),
        op == RegisterOp::Yank ==> (rec matches OpRecord::Copied { src: rs, dst: rd } && rs@
            == ps[i]@ && rd@.len() >= 1 && rd@.drop_last() == dst_dir && !has_at(pre, rd@) && post
            == pre + crate::fsmodel::rebased_under(pre, ps[i]@, rd@)),
        op == RegisterOp::Cut ==> (rec matches OpRecord::Moved { src: rs, dst: rd } && rs@
            == ps[i]@ && rd@.len() >= 1 && rd@.drop_last() == dst_dir && !has_at(pre, rd@) && post
            == rename_f(pre, ps[i]@, rd@)),
    ensures
        forall|k: int|
            i + 1 <= k < ps.len() ==> has_at(post, (#[trigger] ps[k])@) && subtree_size(
                post,
                ps[k]@,
            ) == subtree_size(s0, ps[k]@),
        dir_or_root(post, dst_dir) == dir_or_root(pre, dst_dir),
        op == RegisterOp::Yank ==> total_size(post) == total_size(pre) + subtree_size(
            pre,
            ps[i]@,
        ),
        op == RegisterOp::Cut ==> total_size(post) == total_size(pre),
        op == RegisterOp::Yank ==> (forall|q: PathV, n: NodeV|
            has_node(pre, q, n) ==> #[trigger] has_node(post, q, n)),
{
    let src = ps[i]@;
    let rd = match rec {
        OpRecord::Copied { src: _, dst } => dst@,
        OpRecord::Moved { src: _, dst } => dst@,
        OpRecord::Deleted { original: _, trash } => trash@,
        OpRecord::Created { path } => path@,
        OpRecord::Renamed { from: _, to } => to@,
    };
    let b = crate::fsmodel::rebased_under(pre, src, rd);
    crate::fsmodel::lemma_rebased_all_under(pre, src, rd);
    // No other source, nor the destination directory, lies under `rd`.
    assert forall|q: PathV|
        (has_at(pre, q) || q == dst_dir) && q.len() <= dst_dir.len() + 1 implies !under(
        rd,
        q,
    ) by {
        if under(rd, q) {
            assert(rd.len() == dst_dir.len() + 1);
            assert(q.len() == rd.len());
            assert(q.take(rd.len() as int) =~= q);
            assert(q == rd);
            if q == dst_dir {
                assert(rd.len() == dst_dir.len());
                assert(false);
            } else {
                assert(has_at(pre, rd));
                assert(false);
            }
        }
    }
    assert forall|k: int| i <= k < ps.len() implies !under(rd, (#[trigger] ps[k])@) by {
        if under(rd, ps[k]@) {
            if rd.len() == ps[k]@.len() {
                assert(ps[k]@.take(rd.len() as int) =~= ps[k]@);
                assert(has_at(pre, rd));
            } else {
                let m = choose|m: int| 0 <= m < pre.len() && pre[m].path == ps[k]@;
                assert(has_at(pre, pre[m].path.take(rd.len() as int)));
                assert(pre[m].path.take(rd.len() as int) == rd);
            }
            assert(false);
        }
    }
    assert forall|k: int| i < k < ps.len() implies !under(rd, (#[trigger] ps[k])@) && !under(
        ps[i]@,
        ps[k]@,
    ) by {}
    // Entries of the grafted block are under `rd`, hence under no source.
    assert forall|k: int, m: int|
        i < k < ps.len() && 0 <= m < b.len() implies !under((#[trigger] ps[k])@, (#[trigger] b[m]).path,
    ) by {
        if under(ps[k]@, b[m].path) {
            assert(under(rd, b[m].path));
            if ps[k]@.len() <= rd.len() {
                crate::fspath::lemma_under_antisym(ps[k]@, rd, b[m].path);
                // `ps[k]` would be an ancestor of `rd`, hence of `dst_dir`
                // or equal to `rd`.
                if ps[k]@.len() <= dst_dir.len() {
                    assert(under(ps[k]@, dst_dir)) by {
                        assert(rd.take(dst_dir.len() as int) =~= dst_dir);
                        assert(dst_dir.take(ps[k]@.len() as int) =~= rd.take(
                            ps[k]@.len() as int,
                        ));
                    }
                    assert(false);
                } else {
                    assert(ps[k]@.len() == rd.len());
                    assert(rd.take(ps[k]@.len() as int) =~= rd);
                    assert(ps[k]@ == rd);
                    assert(has_at(pre, ps[k]@));
                    assert(false);
                }
            } else {
                crate::fspath::lemma_under_antisym(rd, ps[k]@, b[m].path);
                assert(false);
            }
        }
    }
    // Subtree sizes of later sources are untouched.
    assert forall|k: int|
        i < k < ps.len() implies subtree_size(post, (#[trigger] ps[k])@) == subtree_size(
        pre,
        ps[k]@,
    ) && has_at(post, ps[k]@) by {
        let q = ps[k]@;
        crate::fsmodel::lemma_keep_none(b, q);
        if op == RegisterOp::Yank {
            crate::fsmodel::lemma_keep_concat(pre, b, q);
            assert(keep_under(post, q) =~= keep_under(pre, q));
            assert(has_node(pre, q, crate::fsmodel::node_at(pre, q)) || true);
            let m = choose|m: int| 0 <= m < pre.len() && pre[m].path == q;
            crate::fsmodel::lemma_concat_mem(pre, b, q, NodeV::Dir);
        } else {
            let a = crate::fsmodel::drop_under(pre, src);
            crate::fsmodel::lemma_keep_concat(a, b, q);
            crate::fsmodel::lemma_keep_drop_commute(pre, src, q);
            assert forall|m: int|
                0 <= m < keep_under(pre, q).len() implies !under(
                src,
                (#[trigger] keep_under(pre, q)[m]).path,
            ) by {
                let e = keep_under(pre, q)[m];
                assert(crate::fsmodel::has_node(keep_under(pre, q), e.path, e.node));
                crate::fsmodel::lemma_keep_under_mem(pre, q, e.path, e.node);
                if under(src, e.path) {
                    if src.len() <= q.len() {
                        crate::fspath::lemma_under_antisym(src, q, e.path);
                    } else {
                        crate::fspath::lemma_under_antisym(q, src, e.path);
                    }
                    assert(false);
                }
            }
            crate::fsmodel::lemma_drop_all_kept(keep_under(pre, q), src);
            assert(keep_under(post, q) =~= keep_under(pre, q));
            crate::fsmodel::lemma_concat_mem(a, b, q, NodeV::Dir);
            crate::fsmodel::lemma_drop_under_mem(pre, src, q, NodeV::Dir);
        }
    }
    // The destination directory's status is untouched.
    assert(dir_or_root(post, dst_dir) == dir_or_root(pre, dst_dir)) by {
        if dst_dir.len() >= 1 {
            assert forall|n: NodeV|
                has_node(post, dst_dir, n) == has_node(pre, dst_dir, n) by {
                crate::fsmodel::lemma_rebased_mem(pre, src, rd, dst_dir, n);
                if op == RegisterOp::Yank {
                    crate::fsmodel::lemma_concat_mem(pre, b, dst_dir, n);
                    if has_node(b, dst_dir, n) {
                        let m = choose|m: int|
                            0 <= m < b.len() && b[m].path == dst_dir && b[m].node == n;
                        assert(under(rd, dst_dir));
                        assert(false);
                    }
                } else {
                    let a = crate::fsmodel::drop_under(pre, src);
                    crate::fsmodel::lemma_concat_mem(a, b, dst_dir, n);
                    crate::fsmodel::lemma_drop_under_mem(pre, src, dst_dir, n);
                    if has_node(b, dst_dir, n) {
                        let m = choose|m: int|
                            0 <= m < b.len() && b[m].path == dst_dir && b[m].node == n;
                        assert(under(rd, dst_dir));
                        assert(false);
                    }
                    if has_node(pre, dst_dir, n) && under(src, dst_dir) {
                        assert(!under(ps[i]@, dst_dir));
                        assert(false);
                    }
                }
            }
            assert forall|q2: PathV| q2 == dst_dir implies has_at(post, q2) == has_at(
                pre,
                q2,
            ) by {
                if has_at(pre, dst_dir) {
                    let n0 = crate::fsmodel::node_at(pre, dst_dir);
                    crate::fsmodel::lemma_has_node_at(pre, dst_dir, n0);
                    crate::fsmodel::lemma_has_node_at(post, dst_dir, n0);
                }
                if has_at(post, dst_dir) {
                    let n0 = crate::fsmodel::node_at(post, dst_dir);
                    crate::fsmodel::lemma_has_node_at(post, dst_dir, n0);
                    crate::fsmodel::lemma_has_node_at(pre, dst_dir, n0);
                }
            }
            if has_at(pre, dst_dir) {
                let n0 = crate::fsmodel::node_at(pre, dst_dir);
                crate::fsmodel::lemma_has_node_at(pre, dst_dir, n0);
                crate::fsmodel::lemma_has_node_at(post, dst_dir, n0);
            }
            if has_at(post, dst_dir) {
                let n0 = crate::fsmodel::node_at(post, dst_dir);
                crate::fsmodel::lemma_has_node_at(post, dst_dir, n0);
                crate::fsmodel::lemma_has_node_at(pre, dst_dir, n0);
            }
        }
    }
    // Size bookkeeping.
    if op == RegisterOp::Yank {
        crate::fsmodel::lemma_size_concat(pre, b);
        crate::fsmodel::lemma_size_rebased(pre, src, rd);
        assert forall|q: PathV, n: NodeV|
            has_node(pre, q, n) implies #[trigger] has_node(post, q, n) by {
            crate::fsmodel::lemma_concat_mem(pre, b, q, n);
        }
    } else {
        let a = crate::fsmodel::drop_under(pre, src);
        crate::fsmodel::lemma_size_concat(a, b);
        crate::fsmodel::lemma_size_rebased(pre, src, rd);
        crate::fsmodel::lemma_size_split(pre, src);
    }
}

} // verus!
