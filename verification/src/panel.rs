//! A directory panel: the listed entries, cursor, scroll offset, marks and
//! sort settings.  The shell reads the directory and hands the raw entries
//! in; everything that orders, filters and targets them is verified.

use vstd::prelude::*;

use crate::fspath::FsPath;
use vstd::multiset::Multiset;
use crate::ops::{ext_of, last_dot};
use crate::strutil::{lex_le, lower_chars, lower_of};

verus! {

/// The sort key for directory listings.
#[derive(Clone, Copy, PartialEq, Eq, Structural)]
pub enum SortMode {
    Name,
    Size,
    Modified,
    Created,
    Extension,
}

impl SortMode {
    /// The short label shown in the sort popup.
    pub fn label(self) -> (r: &'static str)
        ensures
            r@ == (match self {
                SortMode::Name => "name"@,
                SortMode::Size => "size"@,
                SortMode::Modified => "mod"@,
                SortMode::Created => "cre"@,
                SortMode::Extension => "ext"@,
            }),
    {
        match self {
            SortMode::Name => "name",
            SortMode::Size => "size",
            SortMode::Modified => "mod",
            SortMode::Created => "cre",
            SortMode::Extension => "ext",
        }
    }
}

/// One listed entry, as read from a directory by the shell.  Timestamps
/// are plain nanosecond counts; `dir_size` is the cached recursive size
/// used when sorting directories by size.
pub struct FileEntry {
    pub name: String,
    pub path: FsPath,
    pub is_dir: bool,
    pub size: u64,
    pub modified: Option<u64>,
    pub created: Option<u64>,
    pub is_symlink: bool,
    pub dir_size: Option<u64>,
}

/// The case-folded name key.
pub open spec fn name_key(e: FileEntry) -> Seq<char> {
    lower_of(e.name@)
}

/// The case-folded extension key (empty without an extension).
pub open spec fn ext_key(e: FileEntry) -> Seq<char> {
    if last_dot(e.name@) < 0 {
        Seq::empty()
    } else {
        lower_of(ext_of(e.name@))
    }
}

/// `None` sorts before `Some`, sizes by value.
pub open spec fn opt_le(a: Option<u64>, b: Option<u64>) -> bool {
    match (a, b) {
        (Option::None, _) => true,
        (Option::Some(_), Option::None) => false,
        (Option::Some(x), Option::Some(y)) => x <= y,
    }
}

/// The ordering of two entries under a sort mode, within the directory
/// group (`dirs`) or the file group.
pub open spec fn entry_le(a: FileEntry, b: FileEntry, mode: SortMode, dirs: bool) -> bool {
    match mode {
        SortMode::Name => lex_le(name_key(a), name_key(b)),
        SortMode::Size => if dirs {
            match (a.dir_size, b.dir_size) {
                (Option::Some(sa), Option::Some(sb)) => sa <= sb,
                (Option::Some(_), Option::None) => false,
                (Option::None, Option::Some(_)) => true,
                (Option::None, Option::None) => lex_le(name_key(a), name_key(b)),
            }
        } else {
            a.size <= b.size
        },
        SortMode::Modified => opt_le(a.modified, b.modified),
        SortMode::Created => opt_le(a.created, b.created),
        SortMode::Extension => if dirs {
            lex_le(name_key(a), name_key(b))
        } else {
            if !crate::strutil::chars_eqv(ext_key(a), ext_key(b)) {
                lex_le(ext_key(a), ext_key(b))
            } else {
                lex_le(name_key(a), name_key(b))
            }
        },
    }
}

/// The entry ordering is total.
proof fn lemma_entry_le_total(a: FileEntry, b: FileEntry, mode: SortMode, dirs: bool)
    ensures
        entry_le(a, b, mode, dirs) || entry_le(b, a, mode, dirs),
{
    crate::strutil::lemma_lex_le_total(name_key(a), name_key(b));
    crate::strutil::lemma_lex_le_total(ext_key(a), ext_key(b));
}

/// The entry ordering is transitive.
proof fn lemma_entry_le_trans(
    a: FileEntry,
    b: FileEntry,
    c: FileEntry,
    mode: SortMode,
    dirs: bool,
)
    requires
        entry_le(a, b, mode, dirs),
        entry_le(b, c, mode, dirs),
    ensures
        entry_le(a, c, mode, dirs),
{
    if mode == SortMode::Name || (mode == SortMode::Extension && dirs) || (mode == SortMode::Size
        && dirs && a.dir_size is None && b.dir_size is None && c.dir_size is None) {
        crate::strutil::lemma_lex_le_trans(name_key(a), name_key(b), name_key(c));
    }
    if mode == SortMode::Extension && !dirs {
        let ka = ext_key(a);
        let kb = ext_key(b);
        let kc = ext_key(c);
        if crate::strutil::chars_eqv(ka, kb) && crate::strutil::chars_eqv(kb, kc) {
            assert(crate::strutil::chars_eqv(ka, kc));
            crate::strutil::lemma_lex_le_trans(name_key(a), name_key(b), name_key(c));
        } else if !crate::strutil::chars_eqv(ka, kb) && !crate::strutil::chars_eqv(kb, kc) {
            crate::strutil::lemma_lex_le_trans(ka, kb, kc);
            if crate::strutil::chars_eqv(ka, kc) {
                crate::strutil::lemma_lex_le_congruent(ka, kc, kb);
                crate::strutil::lemma_lex_le_antisym(kb, kc);
                assert(false);
            }
        } else if crate::strutil::chars_eqv(ka, kb) {
            crate::strutil::lemma_lex_le_congruent(ka, kb, kc);
            if crate::strutil::chars_eqv(ka, kc) {
                assert(crate::strutil::chars_eqv(kb, kc));
                assert(false);
            }
        } else {
            crate::strutil::lemma_lex_le_congruent(kb, kc, ka);
            if crate::strutil::chars_eqv(ka, kc) {
                assert(crate::strutil::chars_eqv(ka, kb));
                assert(false);
            }
        }
    }
}

/// Decides `entry_le`.
fn entry_le_exec(a: &FileEntry, b: &FileEntry, mode: SortMode, dirs: bool) -> (r: bool)
    ensures
        r == entry_le(*a, *b, mode, dirs),
{
    match mode {
        SortMode::Name => {
            let ka = lower_chars(a.name.as_str());
            let kb = lower_chars(b.name.as_str());
            crate::strutil::lex_le_chars(&ka, &kb)
        },
        SortMode::Size => {
            if dirs {
                match (a.dir_size, b.dir_size) {
                    (Option::Some(sa), Option::Some(sb)) => sa <= sb,
                    (Option::Some(_), Option::None) => false,
                    (Option::None, Option::Some(_)) => true,
                    (Option::None, Option::None) => {
                        let ka = lower_chars(a.name.as_str());
                        let kb = lower_chars(b.name.as_str());
                        crate::strutil::lex_le_chars(&ka, &kb)
                    },
                }
            } else {
                a.size <= b.size
            }
        },
        SortMode::Modified => match (a.modified, b.modified) {
            (Option::None, _) => true,
            (Option::Some(_), Option::None) => false,
            (Option::Some(x), Option::Some(y)) => x <= y,
        },
        SortMode::Created => match (a.created, b.created) {
            (Option::None, _) => true,
            (Option::Some(_), Option::None) => false,
            (Option::Some(x), Option::Some(y)) => x <= y,
        },
        SortMode::Extension => {
            if dirs {
                let ka = lower_chars(a.name.as_str());
                let kb = lower_chars(b.name.as_str());
                crate::strutil::lex_le_chars(&ka, &kb)
            } else {
                let ea = ext_key_exec(a);
                let eb = ext_key_exec(b);
                if !crate::strutil::chars_eqv_exec(&ea, &eb) {
                    crate::strutil::lex_le_chars(&ea, &eb)
                } else {
                    let ka = lower_chars(a.name.as_str());
                    let kb = lower_chars(b.name.as_str());
                    crate::strutil::lex_le_chars(&ka, &kb)
                }
            }
        },
    }
}

/// The executable extension key.
fn ext_key_exec(e: &FileEntry) -> (r: Vec<char>)
    ensures
        r@ == ext_key(*e),
{
    let (_stem, ext) = crate::ops::split_stem_ext(e.name.as_str());
    proof {
        crate::ops::lemma_last_dot_range(e.name@);
    }
    if ext.len() == 0 {
        Vec::new()
    } else {
        let ext_str = crate::strutil::string_of(&ext);
        lower_chars(ext_str.as_str())
    }
}

/// Sorts a group of entries in place by the mode's ordering.
pub fn sort_entries(v: &mut Vec<FileEntry>, mode: SortMode, dirs: bool)
    ensures
        final(v)@.len() == old(v)@.len(),
        final(v)@.to_multiset() == old(v)@.to_multiset(),
        forall|x: int, y: int|
            0 <= x < y < final(v)@.len() ==> entry_le(
                #[trigger] final(v)@[x],
                #[trigger] final(v)@[y],
                mode,
                dirs,
            ),
{
    let ghost ms0 = old(v)@.to_multiset();
    let mut i: usize = 1;
    while i < v.len()
        invariant
            1 <= i <= v@.len() || v@.len() == 0,
            v@.len() == old(v)@.len(),
            v@.to_multiset() == ms0,
            ms0 == old(v)@.to_multiset(),
            forall|x: int, y: int|
                0 <= x < y < i && y < v@.len() ==> entry_le(
                    #[trigger] v@[x],
                    #[trigger] v@[y],
                    mode,
                    dirs,
                ),
        decreases v.len() - i,
    {
        let ghost before = v@;
        let x = v.remove(i);
        let ghost mid = v@;
        proof {
            before.to_multiset_ensures();
            assert(mid.to_multiset() =~= before.to_multiset().remove(x));
        }
        let mut j: usize = 0;
        while j < i && entry_le_exec(&v[j], &x, mode, dirs)
            invariant
                j <= i,
                i < before.len(),
                v@ == mid,
                mid.len() == before.len() - 1,
                forall|k: int| 0 <= k < j ==> entry_le(#[trigger] mid[k], x, mode, dirs),
            decreases i - j,
        {
            j = j + 1;
        }
        proof {
            if j < i {
                lemma_entry_le_total(mid[j as int], x, mode, dirs);
            }
        }
        v.insert(j, x);
        proof {
            // Multiset preserved.
            assert(v@ =~= mid.take(j as int).push(x) + mid.skip(j as int));
            vstd::seq_lib::lemma_multiset_commutative(mid.take(j as int).push(x), mid.skip(j as int));
            mid.take(j as int).to_multiset_ensures();
            vstd::seq_lib::lemma_multiset_commutative(mid.take(j as int), mid.skip(j as int));
            assert(mid.take(j as int) + mid.skip(j as int) =~= mid);
            assert(v@.to_multiset() =~= mid.to_multiset().insert(x));
            assert(before.to_multiset() =~= mid.to_multiset().insert(x)) by {
                before.to_multiset_ensures();
                assert(before[i as int] == x);
                vstd::seq_lib::lemma_multiset_commutative(before.take(i as int), before.skip(i as int));
            }
            // Sortedness of the extended prefix.
            assert(forall|k: int| 0 <= k < mid.len() ==> (k < i ==> #[trigger] mid[k]
                == before[k]));
            assert forall|xx: int, yy: int|
                0 <= xx < yy < i + 1 && yy < v@.len() implies entry_le(
                #[trigger] v@[xx],
                #[trigger] v@[yy],
                mode,
                dirs,
            ) by {
                let jj = j as int;
                if yy < jj {
                    assert(v@[xx] == mid[xx] && v@[yy] == mid[yy]);
                } else if xx < jj && yy == jj {
                    assert(v@[xx] == mid[xx] && v@[yy] == x);
                } else if xx < jj && yy > jj {
                    assert(v@[xx] == mid[xx] && v@[yy] == mid[yy - 1]);
                } else if xx == jj {
                    assert(v@[xx] == x && v@[yy] == mid[yy - 1]);
                    if jj < i {
                        assert(entry_le(x, mid[jj], mode, dirs));
                        if yy - 1 > jj {
                            lemma_entry_le_trans(x, mid[jj], mid[yy - 1], mode, dirs);
                        }
                    }
                } else {
                    assert(v@[xx] == mid[xx - 1] && v@[yy] == mid[yy - 1]);
                }
            }
        }
        i = i + 1;
    }
    proof {
        if v@.len() == 0 {
        }
    }
}

/// Reverses a group of entries in place.
pub fn reverse_entries(v: &mut Vec<FileEntry>)
    ensures
        final(v)@ == old(v)@.reverse(),
{
    let ghost v0 = old(v)@;
    let mut out: Vec<FileEntry> = Vec::new();
    let n = v.len();
    proof {
        assert(v@ =~= v0.take(v@.len() as int));
    }
    while v.len() > 0
        invariant
            n == v0.len(),
            v@ == v0.take(v@.len() as int),
            out@.len() == n - v@.len(),
            forall|j: int| 0 <= j < out@.len() ==> #[trigger] out@[j] == v0[n - 1 - j],
        decreases v.len(),
    {
        let ghost k = v@.len() as int;
        let ghost vpre = v@;
        match v.pop() {
            Some(x) => {
                proof {
                    assert(x == vpre[k - 1]);
                    assert(vpre[k - 1] == v0[k - 1]);
                    assert(v@ =~= v0.take(k - 1));
                }
                out.push(x);
            },
            None => {},
        }
    }
    proof {
        assert(out@ =~= v0.reverse());
    }
    *v = out;
}

/// Whether an entry's name begins with a dot.
pub open spec fn hidden(e: FileEntry) -> bool {
    e.name@.len() > 0 && e.name@[0] == '.'
}

/// The entries of `s` kept for display in the given group, in order:
/// directories when `dirs`, files otherwise, honouring `show_hidden`.
pub open spec fn sel_group(s: Seq<FileEntry>, show_hidden: bool, dirs: bool) -> Seq<FileEntry>
    decreases s.len(),
{
    if s.len() == 0 {
        Seq::empty()
    } else if (show_hidden || !hidden(s.last())) && s.last().is_dir == dirs {
        sel_group(s.drop_last(), show_hidden, dirs).push(s.last())
    } else {
        sel_group(s.drop_last(), show_hidden, dirs)
    }
}

/// A directory panel.
pub struct Panel {
    pub path: FsPath,
    pub entries: Vec<FileEntry>,
    pub selected: usize,
    pub offset: usize,
    pub visual_anchor: Option<usize>,
    pub marked: Vec<FsPath>,
    pub sort_mode: SortMode,
    pub sort_reverse: bool,
    pub show_hidden: bool,
}

/// Whether a path occurs among the marked paths.
pub open spec fn marked_contains(m: Seq<FsPath>, p: crate::fspath::PathV) -> bool {
    exists|i: int| 0 <= i < m.len() && m[i]@ == p
}

/// The targeted paths drawn from the marked set, in listing order.
pub open spec fn marked_targets(es: Seq<FileEntry>, m: Seq<FsPath>) -> Seq<crate::fspath::PathV>
    decreases es.len(),
{
    if es.len() == 0 {
        Seq::empty()
    } else if es.last().name@ != ".."@ && marked_contains(m, es.last().path@) {
        marked_targets(es.drop_last(), m).push(es.last().path@)
    } else {
        marked_targets(es.drop_last(), m)
    }
}

/// The targeted paths of a listing slice, skipping the parent row.
pub open spec fn range_targets(es: Seq<FileEntry>) -> Seq<crate::fspath::PathV>
    decreases es.len(),
{
    if es.len() == 0 {
        Seq::empty()
    } else if es.last().name@ != ".."@ {
        range_targets(es.drop_last()).push(es.last().path@)
    } else {
        range_targets(es.drop_last())
    }
}

/// What a panel currently targets: marks first, else the visual range,
/// else the single selected entry; the parent row never.
pub open spec fn targets_of(p: Panel) -> Seq<crate::fspath::PathV> {
    if p.marked@.len() > 0 {
        marked_targets(p.entries@, p.marked@)
    } else if p.visual_anchor is Some {
        let a = p.visual_anchor->Some_0 as int;
        let s = p.selected as int;
        let lo = if a <= s {
            a
        } else {
            s
        };
        let hi = if a <= s {
            s
        } else {
            a
        };
        if lo < p.entries@.len() {
            range_targets(p.entries@.subrange(lo, if hi + 1 <= p.entries@.len() {
                hi + 1
            } else {
                p.entries@.len() as int
            }))
        } else {
            Seq::empty()
        }
    } else {
        if p.selected < p.entries@.len() && p.entries@[p.selected as int].name@ != ".."@ {
            seq![p.entries@[p.selected as int].path@]
        } else {
            Seq::empty()
        }
    }
}

/// How the marked set changes when the mark on the selected entry is
/// toggled: unchanged when the cursor is off the listing or on the parent
/// row; otherwise the first marked occurrence of the selected path is
/// removed, or the path is appended when it was not marked.
pub open spec fn mark_toggled(p: Panel, m2: Seq<FsPath>) -> bool {
    let m0 = p.marked@;
    if !(p.selected < p.entries@.len() && p.entries@[p.selected as int].name@ != ".."@) {
        m2 == m0
    } else {
        let t = p.entries@[p.selected as int].path@;
        if marked_contains(m0, t) {
            exists|i: int|
                0 <= i < m0.len() && m0[i]@ == t && (forall|j: int| 0 <= j < i ==> m0[j]@ != t)
                    && m2 == m0.remove(i)
        } else {
            m2.len() == m0.len() + 1 && (forall|j: int| 0 <= j < m0.len() ==> m2[j] == m0[j])
                && m2.last()@ == t
        }
    }
}

impl Panel {
    /// A panel at the given path with an empty listing; the shell fills it
    /// through `load_dir`.
    pub fn new(path: FsPath) -> (r: Panel)
        ensures
            r.path@ == path@,
            r.entries@.len() == 0,
            r.selected == 0,
            r.offset == 0,
            r.visual_anchor is None,
            r.marked@.len() == 0,
            r.sort_mode == SortMode::Name,
            r.sort_reverse == false,
            r.show_hidden == false,
    {
        Panel {
            path,
            entries: Vec::new(),
            selected: 0,
            offset: 0,
            visual_anchor: None,
            marked: Vec::new(),
            sort_mode: SortMode::Name,
            sort_reverse: false,
            show_hidden: false,
        }
    }

    /// Rebuilds the listing from a raw directory read: a parent row first
    /// (except at the root), then the kept directories, then the kept
    /// files, each group ordered by the panel's sort settings.
    #[verifier::rlimit(100)]
    #[verifier::spinoff_prover]
    pub fn load_dir(&mut self, raw: Vec<FileEntry>)
        ensures
            final(self).path == old(self).path,
            final(self).offset == old(self).offset,
            final(self).visual_anchor == old(self).visual_anchor,
            final(self).marked == old(self).marked,
            final(self).sort_mode == old(self).sort_mode,
            final(self).sort_reverse == old(self).sort_reverse,
            final(self).show_hidden == old(self).show_hidden,
            ({
                let base: int = if old(self).path@.len() > 0 {
                    1
                } else {
                    0
                };
                let d = sel_group(raw@, old(self).show_hidden, true);
                let f = sel_group(raw@, old(self).show_hidden, false);
                let es = final(self).entries@;
                &&& es.len() == base + d.len() + f.len()
                &&& (base == 1 ==> es[0].name@ == ".."@ && es[0].path@
                    == old(self).path@.drop_last() && es[0].is_dir)
                &&& es.subrange(base, base + d.len()).to_multiset() == d.to_multiset()
                &&& es.subrange(base + d.len(), es.len() as int).to_multiset() == f.to_multiset()
                &&& (forall|x: int, y: int|
                    base <= x < y < base + d.len() ==> (if old(self).sort_reverse {
                        entry_le(#[trigger] es[y], #[trigger] es[x], old(self).sort_mode, true)
                    } else {
                        entry_le(#[trigger] es[x], #[trigger] es[y], old(self).sort_mode, true)
                    }))
                &&& (forall|x: int, y: int|
                    base + d.len() <= x < y < es.len() ==> (if old(self).sort_reverse {
                        entry_le(#[trigger] es[y], #[trigger] es[x], old(self).sort_mode, false)
                    } else {
                        entry_le(#[trigger] es[x], #[trigger] es[y], old(self).sort_mode, false)
                    }))
            }),
            final(self).selected == (if final(self).entries@.len() == 0 {
                0
            } else if old(self).selected >= final(self).entries@.len() {
                (final(self).entries@.len() - 1) as usize
            } else {
                old(self).selected
            }),
    {
        let ghost raw0 = raw@;
        let show = self.show_hidden;
        let mut raw = raw;
        let mut dirs_v: Vec<FileEntry> = Vec::new();
        let mut files_v: Vec<FileEntry> = Vec::new();
        proof {
            assert(raw@ =~= raw0.take(raw@.len() as int));
            dirs_v@.to_multiset_ensures();
            files_v@.to_multiset_ensures();
            assert(dirs_v@.to_multiset() =~= Multiset::<FileEntry>::empty());
            assert(files_v@.to_multiset() =~= Multiset::<FileEntry>::empty());
            assert(dirs_v@.to_multiset().add(sel_group(raw@, show, true).to_multiset())
                =~= sel_group(raw0, show, true).to_multiset());
            assert(files_v@.to_multiset().add(sel_group(raw@, show, false).to_multiset())
                =~= sel_group(raw0, show, false).to_multiset());
        }
        while raw.len() > 0
            invariant
                raw@.len() <= raw0.len(),
                raw@ == raw0.take(raw@.len() as int),
                dirs_v@.to_multiset().add(
                    sel_group(raw@, show, true).to_multiset(),
                ) == sel_group(raw0, show, true).to_multiset(),
                files_v@.to_multiset().add(
                    sel_group(raw@, show, false).to_multiset(),
                ) == sel_group(raw0, show, false).to_multiset(),
            decreases raw.len(),
        {
            let ghost k = raw@.len() as int;
            let ghost rpre = raw@;
            let ghost dprev = sel_group(raw@, show, true);
            let ghost fprev = sel_group(raw@, show, false);
            match raw.pop() {
                Some(e) => {
                    let ghost ev = e;
                    proof {
                        assert(rpre == raw0.take(k));
                        assert(raw@ == rpre.subrange(0, k - 1));
                        assert forall|j: int| 0 <= j < k - 1 implies raw@[j] == raw0.take(
                            k - 1,
                        )[j] by {
                            assert(raw@[j] == rpre[j]);
                            assert(rpre[j] == raw0.take(k)[j]);
                            assert(raw0.take(k)[j] == raw0[j]);
                        }
                        assert(raw@ =~= raw0.take(k - 1));
                        assert(raw0.take(k).drop_last() =~= raw0.take(k - 1));
                        assert(ev == rpre[k - 1] && rpre[k - 1] == raw0[k - 1]);
                        assert(raw0.take(k).last() == raw0[k - 1]);
                        assert(dprev == sel_group(raw0.take(k), show, true));
                        assert(dprev == if (show || !hidden(ev)) && ev.is_dir {
                            sel_group(raw@, show, true).push(ev)
                        } else {
                            sel_group(raw@, show, true)
                        });
                        assert(fprev == if (show || !hidden(ev)) && !ev.is_dir {
                            sel_group(raw@, show, false).push(ev)
                        } else {
                            sel_group(raw@, show, false)
                        });
                        sel_group(raw@, show, true).to_multiset_ensures();
                        sel_group(raw@, show, false).to_multiset_ensures();
                    }
                    let keep = if show {
                        true
                    } else {
                        let cs = crate::strutil::chars_of(e.name.as_str());
                        !(cs.len() > 0 && cs[0] == '.')
                    };
                    if keep {
                        let ghost dcur = dirs_v@;
                        let ghost fcur = files_v@;
                        if e.is_dir {
                            dirs_v.push(e);
                            proof {
                                dcur.to_multiset_ensures();
                                assert(dirs_v@.to_multiset() =~= dcur.to_multiset().insert(ev));
                            }
                        } else {
                            files_v.push(e);
                            proof {
                                fcur.to_multiset_ensures();
                                assert(files_v@.to_multiset() =~= fcur.to_multiset().insert(ev));
                            }
                        }
                    }
                },
                None => {},
            }
        }
        proof {
            assert(raw@ =~= Seq::<FileEntry>::empty());
            assert(sel_group(raw@, show, true) =~= Seq::<FileEntry>::empty());
            assert(sel_group(raw@, show, false) =~= Seq::<FileEntry>::empty());
            assert(raw0.take(raw0.len() as int) =~= raw0);
            assert(dirs_v@.to_multiset() =~= sel_group(raw0, show, true).to_multiset()) by {
                assert(sel_group(raw@, show, true).to_multiset() =~= Multiset::<
                    FileEntry,
                >::empty());
            }
            assert(files_v@.to_multiset() =~= sel_group(raw0, show, false).to_multiset()) by {
                assert(sel_group(raw@, show, false).to_multiset() =~= Multiset::<
                    FileEntry,
                >::empty());
            }
        }
        sort_entries(&mut dirs_v, self.sort_mode, true);
        sort_entries(&mut files_v, self.sort_mode, false);
        let ghost dsorted = dirs_v@;
        let ghost fsorted = files_v@;
        if self.sort_reverse {
            reverse_entries(&mut dirs_v);
            reverse_entries(&mut files_v);
            proof {
                dsorted.lemma_reverse_to_multiset();
                fsorted.lemma_reverse_to_multiset();
            }
        }
        let ghost dv = dirs_v@;
        let ghost fv = files_v@;
        proof {
            if self.sort_reverse {
                assert forall|x: int, y: int|
                    0 <= x < y < dv.len() implies entry_le(
                    #[trigger] dv[y],
                    #[trigger] dv[x],
                    self.sort_mode,
                    true,
                ) by {
                    assert(dv[y] == dsorted[dv.len() - 1 - y]);
                    assert(dv[x] == dsorted[dv.len() - 1 - x]);
                }
                assert forall|x: int, y: int|
                    0 <= x < y < fv.len() implies entry_le(
                    #[trigger] fv[y],
                    #[trigger] fv[x],
                    self.sort_mode,
                    false,
                ) by {
                    assert(fv[y] == fsorted[fv.len() - 1 - y]);
                    assert(fv[x] == fsorted[fv.len() - 1 - x]);
                }
            }
        }
        let mut entries: Vec<FileEntry> = Vec::new();
        match self.path.parent() {
            Some(parent) => {
                entries.push(
                    FileEntry {
                        name: "..".to_owned(),
                        path: parent,
                        is_dir: true,
                        size: 0,
                        modified: None,
                        created: None,
                        is_symlink: false,
                        dir_size: None,
                    },
                );
            },
            None => {},
        }
        let ghost base = entries@.len() as int;
        entries.append(&mut dirs_v);
        entries.append(&mut files_v);
        proof {
            assert(entries@.subrange(base, base + dv.len()) =~= dv);
            assert(entries@.subrange(base + dv.len(), entries@.len() as int) =~= fv);
            assert(forall|x: int|
                base <= x < base + dv.len() ==> #[trigger] entries@[x] == dv[x - base]);
            assert(forall|x: int|
                base + dv.len() <= x < entries@.len() ==> #[trigger] entries@[x] == fv[
                    x - base - dv.len()
                ]);
        }
        self.entries = entries;
        if self.entries.len() == 0 {
            self.selected = 0;
        } else if self.selected >= self.entries.len() {
            self.selected = self.entries.len() - 1;
        }
        proof {
            let base2: int = if old(self).path@.len() > 0 { 1 } else { 0 };
            let d = sel_group(raw0, old(self).show_hidden, true);
            let f = sel_group(raw0, old(self).show_hidden, false);
            let es = self.entries@;
            assert(base2 == base);
            assert(dv.to_multiset() == d.to_multiset());
            assert(fv.to_multiset() == f.to_multiset());
            assert(dv.len() == d.len()) by {
                dv.to_multiset_ensures();
                d.to_multiset_ensures();
            }
            assert(fv.len() == f.len()) by {
                fv.to_multiset_ensures();
                f.to_multiset_ensures();
            }
            assert(es.len() == base2 + d.len() + f.len());
            assert(base2 == 1 ==> es[0].name@ == ".."@ && es[0].path@
                == old(self).path@.drop_last() && es[0].is_dir);
            assert(es.subrange(base2, base2 + d.len()).to_multiset() == d.to_multiset());
            assert(es.subrange(base2 + d.len(), es.len() as int).to_multiset() == f.to_multiset());
        }
    }

    /// Moves the cursor up one row.
    pub fn move_up(&mut self)
        ensures
            *final(self) == (Panel {
                selected: if old(self).selected > 0 {
                    (old(self).selected - 1) as usize
                } else {
                    0
                },
                ..*old(self)
            }),
    {
        if self.selected > 0 {
            self.selected = self.selected - 1;
        }
    }

    /// Moves the cursor down one row.
    pub fn move_down(&mut self)
        ensures
            *final(self) == (Panel {
                selected: if old(self).entries@.len() == 0 {
                    old(self).selected
                } else if old(self).selected + 1 < old(self).entries@.len() {
                    (old(self).selected + 1) as usize
                } else {
                    (old(self).entries@.len() - 1) as usize
                },
                ..*old(self)
            }),
    {
        if self.entries.len() > 0 {
            if self.selected < self.entries.len() - 1 {
                self.selected = self.selected + 1;
            } else {
                self.selected = self.entries.len() - 1;
            }
        }
    }

    /// Jumps to the first row.
    pub fn go_top(&mut self)
        ensures
            *final(self) == (Panel { selected: 0, ..*old(self) }),
    {
        self.selected = 0;
    }

    /// Jumps to the last row.
    pub fn go_bottom(&mut self)
        ensures
            *final(self) == (Panel {
                selected: if old(self).entries@.len() == 0 {
                    old(self).selected
                } else {
                    (old(self).entries@.len() - 1) as usize
                },
                ..*old(self)
            }),
    {
        if self.entries.len() > 0 {
            self.selected = self.entries.len() - 1;
        }
    }

    /// Moves the cursor up by half a page.
    pub fn page_up(&mut self, half_page: usize)
        ensures
            *final(self) == (Panel {
                selected: if old(self).selected >= half_page {
                    (old(self).selected - half_page) as usize
                } else {
                    0
                },
                ..*old(self)
            }),
    {
        if self.selected >= half_page {
            self.selected = self.selected - half_page;
        } else {
            self.selected = 0;
        }
    }

    /// Moves the cursor down by half a page.
    pub fn page_down(&mut self, half_page: usize)
        ensures
            final(self).selected == (if old(self).entries@.len() == 0 {
                old(self).selected
            } else if old(self).selected + half_page < old(self).entries@.len() {
                (old(self).selected + half_page) as usize
            } else {
                (old(self).entries@.len() - 1) as usize
            }),
            final(self).entries == old(self).entries,
            final(self).path == old(self).path,
            final(self).marked == old(self).marked,
            final(self).visual_anchor == old(self).visual_anchor,
            final(self).offset == old(self).offset,
    {
        if self.entries.len() > 0 {
            if self.selected < self.entries.len() && self.entries.len() - 1 - self.selected
                > half_page {
                self.selected = self.selected + half_page;
            } else {
                self.selected = self.entries.len() - 1;
            }
        }
    }

    /// Enters the selected directory: the path changes, the cursor and
    /// marks reset, and the listing empties until the shell reloads it.
    /// Returns whether a directory was entered.
    pub fn enter_selected(&mut self) -> (r: bool)
        ensures
            r == (old(self).selected < old(self).entries@.len()
                && old(self).entries@[old(self).selected as int].is_dir),
            r ==> final(self).path@ == old(self).entries@[old(self).selected as int].path@
                && final(self).selected == 0 && final(self).offset == 0
                && final(self).marked@.len() == 0 && final(self).entries@.len() == 0,
            !r ==> *final(self) == *old(self),
    {
        if self.selected < self.entries.len() {
            let is_dir = self.entries[self.selected].is_dir;
            if is_dir {
                let new_path = self.entries[self.selected].path.dup();
                self.path = new_path;
                self.selected = 0;
                self.offset = 0;
                self.marked = Vec::new();
                self.entries = Vec::new();
                return true;
            }
        }
        false
    }

    /// Steps up to the parent directory, returning the name of the
    /// directory just left so the shell can re-select it after reloading.
    pub fn go_parent(&mut self) -> (r: Option<String>)
        ensures
            old(self).path@.len() == 0 ==> r is None && *final(self) == *old(self),
            old(self).path@.len() > 0 ==> r is Some && r->Some_0@ == old(self).path@.last()
                && final(self).path@ == old(self).path@.drop_last() && final(self).selected == 0
                && final(self).offset == 0 && final(self).marked@.len() == 0
                && final(self).entries@.len() == 0,
    {
        let name = match self.path.file_name() {
            Some(name) => name,
            None => {
                return None;
            },
        };
        let parent = match self.path.parent() {
            Some(parent) => parent,
            None => {
                return None;
            },
        };
        self.path = parent;
        self.selected = 0;
        self.offset = 0;
        self.marked = Vec::new();
        self.entries = Vec::new();
        Some(name)
    }

    /// Jumps to the given home directory, resetting cursor and marks; the
    /// shell reloads the listing.
    pub fn go_home(&mut self, home: FsPath)
        ensures
            final(self).path@ == home@,
            final(self).selected == 0,
            final(self).offset == 0,
            final(self).marked@.len() == 0,
            final(self).entries@.len() == 0,
    {
        self.path = home;
        self.selected = 0;
        self.offset = 0;
        self.marked = Vec::new();
        self.entries = Vec::new();
    }

    /// The entry under the cursor, if any.
    pub fn selected_entry(&self) -> (r: Option<&FileEntry>)
        ensures
            self.selected < self.entries@.len() ==> r is Some && *r->Some_0
                == self.entries@[self.selected as int],
            self.selected >= self.entries@.len() ==> r is None,
    {
        if self.selected < self.entries.len() {
            Some(&self.entries[self.selected])
        } else {
            None
        }
    }

    /// The inclusive visual selection range, if visual mode is active.
    pub fn visual_range(&self) -> (r: Option<(usize, usize)>)
        ensures
            match self.visual_anchor {
                Some(a) => r is Some && r->Some_0.0 == (if a <= self.selected {
                    a
                } else {
                    self.selected
                }) && r->Some_0.1 == (if a <= self.selected {
                    self.selected
                } else {
                    a
                }),
                None => r is None,
            },
    {
        match self.visual_anchor {
            Some(a) => {
                if a <= self.selected {
                    Some((a, self.selected))
                } else {
                    Some((self.selected, a))
                }
            },
            None => None,
        }
    }

    /// The paths this panel currently targets.
    pub fn targeted_paths(&self) -> (r: Vec<FsPath>)
        ensures
            r@.map_values(|p: FsPath| p@) == targets_of(*self),
    {
        let mut out: Vec<FsPath> = Vec::new();
        if self.marked.len() > 0 {
            let mut i: usize = 0;
            while i < self.entries.len()
                invariant
                    i <= self.entries@.len(),
                    out@.map_values(|p: FsPath| p@) == marked_targets(
                        self.entries@.take(i as int),
                        self.marked@,
                    ),
                decreases self.entries.len() - i,
            {
                let e = &self.entries[i];
                proof {
                    assert(self.entries@.take(i + 1).drop_last() =~= self.entries@.take(i as int));
                    assert(self.entries@.take(i + 1).last() == self.entries@[i as int]);
                }
                let is_parent = {
                    let cs = crate::strutil::chars_of(e.name.as_str());
                    let dd = crate::strutil::chars_of("..");
                    crate::strutil::chars_eq(&cs, &dd)
                };
                if !is_parent && self.contains_marked(&e.path) {
                    let ghost m0 = out@.map_values(|p: FsPath| p@);
                    out.push(e.path.dup());
                    proof {
                        assert(out@.map_values(|p: FsPath| p@) =~= m0.push(
                            self.entries@[i as int].path@,
                        ));
                    }
                }
                i = i + 1;
            }
            proof {
                assert(self.entries@.take(self.entries@.len() as int) =~= self.entries@);
            }
        } else {
            match self.visual_range() {
                Some((lo, hi)) => {
                    if lo < self.entries.len() {
                        let hi2 = if hi < self.entries.len() {
                            hi + 1
                        } else {
                            self.entries.len()
                        };
                        let ghost sub = self.entries@.subrange(lo as int, hi2 as int);
                        let mut i: usize = lo;
                        while i < hi2
                            invariant
                                lo <= i <= hi2 <= self.entries@.len(),
                                sub == self.entries@.subrange(lo as int, hi2 as int),
                                out@.map_values(|p: FsPath| p@) == range_targets(
                                    sub.take(i - lo),
                                ),
                            decreases hi2 - i,
                        {
                            let e = &self.entries[i];
                            proof {
                                assert(sub.take(i + 1 - lo).drop_last() =~= sub.take(i - lo));
                                assert(sub.take(i + 1 - lo).last() == self.entries@[i as int]);
                            }
                            let is_parent = {
                                let cs = crate::strutil::chars_of(e.name.as_str());
                                let dd = crate::strutil::chars_of("..");
                                crate::strutil::chars_eq(&cs, &dd)
                            };
                            if !is_parent {
                                let ghost m0 = out@.map_values(|p: FsPath| p@);
                                out.push(e.path.dup());
                                proof {
                                    assert(out@.map_values(|p: FsPath| p@) =~= m0.push(
                                        self.entries@[i as int].path@,
                                    ));
                                }
                            }
                            i = i + 1;
                        }
                        proof {
                            assert(sub.take(hi2 - lo) =~= sub);
                        }
                    }
                },
                None => {
                    if self.selected < self.entries.len() {
                        let e = &self.entries[self.selected];
                        let is_parent = {
                            let cs = crate::strutil::chars_of(e.name.as_str());
                            let dd = crate::strutil::chars_of("..");
                            crate::strutil::chars_eq(&cs, &dd)
                        };
                        if !is_parent {
                            out.push(e.path.dup());
                            proof {
                                assert(out@.map_values(|p: FsPath| p@) =~= seq![
                                    self.entries@[self.selected as int].path@,
                                ]);
                            }
                        }
                    }
                },
            }
        }
        proof {
            if !(self.marked@.len() > 0) && self.visual_anchor is None {
                if !(self.selected < self.entries@.len()
                    && self.entries@[self.selected as int].name@ != ".."@) {
                    assert(out@.map_values(|p: FsPath| p@) =~= Seq::<crate::fspath::PathV>::empty());
                }
            }
        }
        out
    }

    /// How many entries this panel currently targets.
    pub fn targeted_count(&self) -> (r: usize)
        ensures
            r == targets_of(*self).len(),
    {
        let v = self.targeted_paths();
        proof {
            assert(v@.map_values(|p: FsPath| p@).len() == v@.len());
        }
        v.len()
    }

    /// Whether the given path is marked.
    fn contains_marked(&self, p: &FsPath) -> (r: bool)
        ensures
            r == marked_contains(self.marked@, p@),
    {
        let mut i: usize = 0;
        while i < self.marked.len()
            invariant
                i <= self.marked@.len(),
                forall|j: int| 0 <= j < i ==> self.marked@[j]@ != p@,
            decreases self.marked.len() - i,
        {
            if &self.marked[i] == p {
                return true;
            }
            i = i + 1;
        }
        false
    }

    /// Toggles the mark on the current entry and moves the cursor down.
    pub fn toggle_mark(&mut self)
        ensures
            final(self).path == old(self).path,
            final(self).entries == old(self).entries,
            mark_toggled(*old(self), final(self).marked@),
            final(self).selected == (if old(self).entries@.len() == 0 {
                old(self).selected
            } else if old(self).selected + 1 < old(self).entries@.len() {
                (old(self).selected + 1) as usize
            } else {
                (old(self).entries@.len() - 1) as usize
            }),
    {
        self.toggle_mark_only();
        self.move_down();
    }

    /// Toggles the mark on the current entry and moves the cursor up.
    pub fn toggle_mark_up(&mut self)
        ensures
            final(self).path == old(self).path,
            final(self).entries == old(self).entries,
            mark_toggled(*old(self), final(self).marked@),
            final(self).selected == (if old(self).selected > 0 {
                (old(self).selected - 1) as usize
            } else {
                0
            }),
    {
        self.toggle_mark_only();
        self.move_up();
    }

    /// Toggles the mark on the current entry.
    fn toggle_mark_only(&mut self)
        ensures
            final(self).path == old(self).path,
            final(self).entries == old(self).entries,
            final(self).selected == old(self).selected,
            final(self).visual_anchor == old(self).visual_anchor,
            final(self).offset == old(self).offset,
            mark_toggled(*old(self), final(self).marked@),
    {
        if self.selected >= self.entries.len() {
            return ;
        }
        let is_parent = {
            let cs = crate::strutil::chars_of(self.entries[self.selected].name.as_str());
            let dd = crate::strutil::chars_of("..");
            crate::strutil::chars_eq(&cs, &dd)
        };
        if is_parent {
            return ;
        }
        let p = self.entries[self.selected].path.dup();
        let ghost m0 = self.marked@;
        let mut i: usize = 0;
        while i < self.marked.len()
            invariant
                *self == *old(self),
                m0 == old(self).marked@,
                i <= self.marked@.len(),
                self.marked@ == m0,
                p@ == self.entries@[self.selected as int].path@,
                self.selected < self.entries@.len(),
                old(self).selected < old(self).entries@.len(),
                old(self).entries@[old(self).selected as int].name@ != ".."@,
                forall|j: int| 0 <= j < i ==> m0[j]@ != p@,
            decreases self.marked.len() - i,
        {
            if &self.marked[i] == &p {
                let _removed = self.marked.remove(i);
                return ;
            }
            i = i + 1;
        }
        self.marked.push(p);
        proof {
            assert(forall|j: int| 0 <= j < m0.len() ==> self.marked@[j] == m0[j]);
        }
    }

    /// Selects the entry with the given name, if present.
    pub fn select_by_name(&mut self, name: &str)
        ensures
            final(self).path == old(self).path,
            final(self).entries == old(self).entries,
            final(self).marked == old(self).marked,
            (exists|i: int|
                0 <= i < old(self).entries@.len() && (#[trigger] old(self).entries@[i]).name@
                    == name@) ==> final(self).selected < old(self).entries@.len()
                && old(self).entries@[final(self).selected as int].name@ == name@,
            !(exists|i: int|
                0 <= i < old(self).entries@.len() && (#[trigger] old(self).entries@[i]).name@
                    == name@) ==> final(self).selected == old(self).selected,
    {
        let target = crate::strutil::chars_of(name);
        let mut i: usize = 0;
        while i < self.entries.len()
            invariant
                i <= self.entries@.len(),
                *self == *old(self),
                target@ == name@,
                forall|j: int| 0 <= j < i ==> (#[trigger] self.entries@[j]).name@ != name@,
            decreases self.entries.len() - i,
        {
            let cs = crate::strutil::chars_of(self.entries[i].name.as_str());
            if crate::strutil::chars_eq(&cs, &target) {
                self.selected = i;
                return ;
            }
            i = i + 1;
        }
    }

    /// Scrolls so the cursor stays within the visible rows.
    pub fn adjust_scroll(&mut self, visible_height: usize)
        ensures
            final(self).path == old(self).path,
            final(self).entries == old(self).entries,
            final(self).selected == old(self).selected,
            final(self).marked == old(self).marked,
            visible_height == 0 ==> final(self).offset == old(self).offset,
            visible_height > 0 ==> final(self).offset == (if old(self).selected < old(self).offset {
                old(self).selected
            } else if old(self).selected >= old(self).offset + visible_height {
                (old(self).selected - visible_height + 1) as usize
            } else {
                old(self).offset
            }),
    {
        if visible_height == 0 {
            return ;
        }
        if self.selected < self.offset {
            self.offset = self.selected;
        } else if self.selected >= self.offset && self.selected - self.offset >= visible_height {
            self.offset = self.selected - visible_height + 1;
        }
    }
}

} // verus!
