//! The tree sidebar: a flat list of rows from a root down to the current
//! directory, expanding only the directories along that path.

use vstd::prelude::*;

use crate::fsmodel::{Fs, has_at, node_at, wf};
use crate::fspath::{FsPath, PathV, under};
use crate::panel::{FileEntry, SortMode, entry_le, sort_entries};
use crate::strutil::string_of;

verus! {

/// One row of the tree sidebar.
pub struct TreeLine {
    pub prefix: String,
    pub name: String,
    pub path: FsPath,
    pub is_dir: bool,
    pub is_current: bool,
    pub is_on_path: bool,
    pub depth: usize,
}

/// The connector segments drawn for the ancestors of a row.
pub open spec fn seg_rep(cs: Seq<bool>) -> Seq<char>
    decreases cs.len(),
{
    if cs.len() == 0 {
        Seq::empty()
    } else {
        seg_rep(cs.drop_last()) + (if cs.last() {
            "\u{2502}  "@
        } else {
            "   "@
        })
    }
}

/// The full prefix of a row: ancestor connectors, then a branch or elbow.
pub open spec fn prefix_rep(cs: Seq<bool>, is_last: bool) -> Seq<char> {
    seg_rep(cs) + (if is_last {
        "\u{2514}\u{2500} "@
    } else {
        "\u{251c}\u{2500} "@
    })
}

/// Builds the connector prefix for a row.
pub fn make_prefix(connector_state: &Vec<bool>, is_last: bool) -> (r: String)
    ensures
        r@ == prefix_rep(connector_state@, is_last),
{
    let mut cs: Vec<char> = Vec::new();
    let mut i: usize = 0;
    while i < connector_state.len()
        invariant
            i <= connector_state@.len(),
            cs@ == seg_rep(connector_state@.take(i as int)),
        decreases connector_state.len() - i,
    {
        proof {
            assert(connector_state@.take(i + 1).drop_last() =~= connector_state@.take(i as int));
            assert(connector_state@.take(i + 1).last() == connector_state@[i as int]);
            reveal_strlit("\u{2502}  ");
            reveal_strlit("   ");
        }
        if connector_state[i] {
            cs.push('\u{2502}');
            cs.push(' ');
            cs.push(' ');
            proof {
                assert(cs@ =~= seg_rep(connector_state@.take(i + 1)));
            }
        } else {
            cs.push(' ');
            cs.push(' ');
            cs.push(' ');
            proof {
                assert(cs@ =~= seg_rep(connector_state@.take(i + 1)));
            }
        }
        i = i + 1;
    }
    proof {
        assert(connector_state@.take(connector_state@.len() as int) =~= connector_state@);
        reveal_strlit("\u{2514}\u{2500} ");
        reveal_strlit("\u{251c}\u{2500} ");
    }
    if is_last {
        cs.push('\u{2514}');
        cs.push('\u{2500}');
        cs.push(' ');
    } else {
        cs.push('\u{251c}');
        cs.push('\u{2500}');
        cs.push(' ');
    }
    proof {
        assert(cs@ =~= prefix_rep(connector_state@, is_last));
    }
    string_of(&cs)
}

/// The direct children of `dir`, split into directories and files, each
/// group ordered by name.
fn children_of(fs: &Fs, dir: &FsPath, show_hidden: bool) -> (r: (Vec<FileEntry>, Vec<FileEntry>))
    requires
        wf(fs@),
    ensures
        forall|i: int|
            0 <= i < r.0@.len() ==> child_ok(fs@, #[trigger] r.0@[i], dir@, true),
        forall|i: int|
            0 <= i < r.1@.len() ==> child_ok(fs@, #[trigger] r.1@[i], dir@, false),
        forall|x: int, y: int|
            0 <= x < y < r.0@.len() ==> entry_le(
                #[trigger] r.0@[x],
                #[trigger] r.0@[y],
                SortMode::Name,
                true,
            ),
        forall|x: int, y: int|
            0 <= x < y < r.1@.len() ==> entry_le(
                #[trigger] r.1@[x],
                #[trigger] r.1@[y],
                SortMode::Name,
                false,
            ),
{
    let ghost s = fs@;
    let mut dirs: Vec<FileEntry> = Vec::new();
    let mut files: Vec<FileEntry> = Vec::new();
    let mut i: usize = 0;
    while i < fs.entries.len()
        invariant
            wf(s),
            fs@ == s,
            i <= s.len(),
            s.len() == fs.entries@.len(),
            forall|k: int| 0 <= k < dirs@.len() ==> child_ok(s, #[trigger] dirs@[k], dir@, true),
            forall|k: int|
                0 <= k < files@.len() ==> child_ok(s, #[trigger] files@[k], dir@, false),
        decreases fs.entries.len() - i,
    {
        let e = &fs.entries[i];
        proof {
            assert(e@ == s[i as int]);
        }
        if e.path.depth() >= 1 && e.path.depth() - 1 == dir.depth() && dir.is_ancestor_of(
            &e.path,
        ) {
            let name = match e.path.file_name() {
                Some(name) => name,
                None => String::new(),
            };
            let keep = if show_hidden {
                true
            } else {
                let cs = crate::strutil::chars_of(name.as_str());
                !(cs.len() > 0 && cs[0] == '.')
            };
            if keep {
                let is_dir = match &e.node {
                    crate::fsmodel::FsNode::Dir => true,
                    crate::fsmodel::FsNode::File(_) => false,
                };
                proof {
                    crate::fsmodel::lemma_node_at(s, i as int);
                }
                let child = FileEntry {
                    name,
                    path: e.path.dup(),
                    is_dir,
                    size: 0,
                    modified: None,
                    created: None,
                    is_symlink: false,
                    dir_size: None,
                };
                if is_dir {
                    dirs.push(child);
                } else {
                    files.push(child);
                }
            }
        }
        i = i + 1;
    }
    let ghost d0 = dirs@;
    let ghost f0 = files@;
    sort_entries(&mut dirs, SortMode::Name, true);
    sort_entries(&mut files, SortMode::Name, false);
    proof {
        assert forall|k: int|
            0 <= k < dirs@.len() implies child_ok(s, #[trigger] dirs@[k], dir@, true) by {
            dirs@.to_multiset_ensures();
            d0.to_multiset_ensures();
            assert(dirs@.to_multiset().count(dirs@[k]) > 0);
            assert(d0.contains(dirs@[k]));
        }
        assert forall|k: int|
            0 <= k < files@.len() implies child_ok(s, #[trigger] files@[k], dir@, false) by {
            files@.to_multiset_ensures();
            f0.to_multiset_ensures();
            assert(files@.to_multiset().count(files@[k]) > 0);
            assert(f0.contains(files@[k]));
        }
    }
    (dirs, files)
}

/// A collected child row matches the store.
pub open spec fn child_ok(
    s: Seq<crate::fsmodel::EntryV>,
    e: FileEntry,
    dir: PathV,
    is_dir: bool,
) -> bool {
    &&& has_at(s, e.path@)
    &&& (node_at(s, e.path@) is Dir) == is_dir
    &&& e.is_dir == is_dir
    &&& e.path@.len() == dir.len() + 1
    &&& under(dir, e.path@)
    &&& e.path@.len() >= 1
    &&& e.name@ == e.path@.last()
}

/// A row emitted below `dir`: an existing entry of the matching kind,
/// lying under `dir`, whose parent is `dir` itself or a directory on the
/// way to `current`, and marked current exactly on the current directory.
pub open spec fn row_ok(
    s: Seq<crate::fsmodel::EntryV>,
    l: TreeLine,
    dir: PathV,
    current: PathV,
) -> bool {
    &&& has_at(s, l.path@)
    &&& l.is_dir == (node_at(s, l.path@) is Dir)
    &&& under(dir, l.path@)
    &&& l.path@.len() > dir.len()
    &&& l.name@ == l.path@.last()
    &&& under(dir, l.path@.drop_last())
    &&& (l.path@.drop_last() == dir || under(l.path@.drop_last(), current))
    &&& l.is_current == (l.path@ == current && l.is_dir)
}

/// Expands one directory level: its children in order, recursing into the
/// child that lies on the way to the current directory.
#[verifier::rlimit(100)]
#[verifier::spinoff_prover]
fn expand_dir(
    fs: &Fs,
    dir: &FsPath,
    current: &FsPath,
    ahead: usize,
    lines: &mut Vec<TreeLine>,
    connector_state: &Vec<bool>,
    show_hidden: bool,
)
    requires
        wf(fs@),
        dir@.len() + ahead == current@.len(),
        under(dir@, current@),
    ensures
        final(lines)@.len() >= old(lines)@.len(),
        forall|i: int|
            0 <= i < old(lines)@.len() ==> #[trigger] final(lines)@[i] == old(lines)@[i],
        forall|i: int|
            old(lines)@.len() <= i < final(lines)@.len() ==> row_ok(
                fs@,
                #[trigger] final(lines)@[i],
                dir@,
                current@,
            ),
    decreases ahead,
{
    let (dirs, files) = children_of(fs, dir, show_hidden);
    let total: u128 = dirs.len() as u128 + files.len() as u128;
    if total == 0 {
        return ;
    }
    let mut idx: u128 = 0;
    let mut di: usize = 0;
    while di < dirs.len()
        invariant
            wf(fs@),
            dir@.len() + ahead == current@.len(),
            under(dir@, current@),
            di <= dirs@.len(),
            idx == di as u128,
            total == dirs@.len() + files@.len(),
            forall|k: int| 0 <= k < dirs@.len() ==> child_ok(fs@, #[trigger] dirs@[k], dir@, true),
            forall|k: int|
                0 <= k < files@.len() ==> child_ok(fs@, #[trigger] files@[k], dir@, false),
            lines@.len() >= old(lines)@.len(),
            forall|i: int|
                0 <= i < old(lines)@.len() ==> #[trigger] lines@[i] == old(lines)@[i],
            forall|i: int|
                old(lines)@.len() <= i < lines@.len() ==> row_ok(
                    fs@,
                    #[trigger] lines@[i],
                    dir@,
                    current@,
                ),
        decreases dirs.len() - di,
    {
        let e = &dirs[di];
        let is_last = idx + 1 == total;
        let on_path = if ahead > 0 {
            let dl = dir.depth();
            let cl = current.depth();
            proof {
                assert(dir@.len() + ahead == current@.len());
                assert(dl < cl);
            }
            let target = current.prefix(dl + 1);
            &e.path == &target
        } else {
            false
        };
        proof {
            assert(ahead > 0 ==> on_path == (dirs@[di as int].path@ == current@.take(
                dir@.len() as int + 1,
            )));
        }
        let is_cur = on_path && ahead == 1;
        let prefix = make_prefix(connector_state, is_last);
        let line = TreeLine {
            prefix,
            name: e.name.clone(),
            path: e.path.dup(),
            is_dir: true,
            is_current: is_cur,
            is_on_path: on_path,
            depth: level_below(connector_state),
        };
        let ghost l_pre = lines@;
        lines.push(line);
        proof {
            assert(child_ok(fs@, dirs@[di as int], dir@, true));
            assert(dirs@[di as int].path@.len() > dir@.len());
            assert(lines@.len() == l_pre.len() + 1);
            assert(lines@.last().path@ == dirs@[di as int].path@);
            // The child's parent is `dir` itself.
            assert(lines@.last().path@.drop_last() =~= dir@);
            crate::fspath::lemma_under_refl(dir@);
            // Current-marking: the child equals `current` exactly when it is
            // the on-path child of the last level.
            assert(current@.take(current@.len() as int) =~= current@);
            if dirs@[di as int].path@ == current@ {
                assert(current@.len() == dir@.len() + 1);
                assert(ahead == 1);
                assert(on_path);
            }
            if is_cur {
                assert(dirs@[di as int].path@ == current@.take(dir@.len() as int + 1));
                assert(dir@.len() + 1 == current@.len());
                assert(dirs@[di as int].path@ == current@);
            }
            assert(row_ok(fs@, lines@.last(), dir@, current@));
            assert forall|i: int|
                old(lines)@.len() <= i < lines@.len() implies row_ok(
                fs@,
                #[trigger] lines@[i],
                dir@,
                current@,
            ) by {
                if i < l_pre.len() {
                    assert(lines@[i] == l_pre[i]);
                    assert(row_ok(fs@, l_pre[i], dir@, current@));
                } else {
                    assert(i == lines@.len() - 1);
                    assert(lines@[i] == lines@.last());
                }
            }
        }
        if on_path && ahead >= 1 {
            let mut next_connectors = dup_bools(connector_state);
            next_connectors.push(!is_last);
            let ghost l_mid = lines@;
            proof {
                crate::fspath::lemma_under_take(current@, dir@.len() as int + 1);
            }
            expand_dir(fs, &e.path, current, ahead - 1, lines, &next_connectors, show_hidden);
            proof {
                let child = dirs@[di as int].path@;
                assert(child_ok(fs@, dirs@[di as int], dir@, true));
                assert(child.len() == dir@.len() + 1);
                assert(under(child, current@));
                assert forall|i: int|
                    old(lines)@.len() <= i < lines@.len() implies row_ok(
                    fs@,
                    #[trigger] lines@[i],
                    dir@,
                    current@,
                ) by {
                    if i < l_mid.len() {
                        assert(lines@[i] == l_mid[i]);
                        assert(row_ok(fs@, l_mid[i], dir@, current@));
                    } else {
                        assert(row_ok(fs@, lines@[i], child, current@));
                        crate::fspath::lemma_under_trans(dir@, child, lines@[i].path@);
                        crate::fspath::lemma_under_trans(dir@, child, lines@[i].path@.drop_last());
                        if lines@[i].path@.drop_last() == child {
                            assert(under(lines@[i].path@.drop_last(), current@));
                        }
                    }
                }
            }
        }
        idx = idx + 1;
        di = di + 1;
    }
    let mut fi: usize = 0;
    while fi < files.len()
        invariant
            wf(fs@),
            fi <= files@.len(),
            idx == dirs@.len() as u128 + fi as u128,
            total == dirs@.len() + files@.len(),
            forall|k: int|
                0 <= k < files@.len() ==> child_ok(fs@, #[trigger] files@[k], dir@, false),
            dir@.len() + ahead == current@.len(),
            under(dir@, current@),
            lines@.len() >= old(lines)@.len(),
            forall|i: int|
                0 <= i < old(lines)@.len() ==> #[trigger] lines@[i] == old(lines)@[i],
            forall|i: int|
                old(lines)@.len() <= i < lines@.len() ==> row_ok(
                    fs@,
                    #[trigger] lines@[i],
                    dir@,
                    current@,
                ),
        decreases files.len() - fi,
    {
        let e = &files[fi];
        let is_last = idx + 1 == total;
        let prefix = make_prefix(connector_state, is_last);
        let ghost l_pre = lines@;
        lines.push(
            TreeLine {
                prefix,
                name: e.name.clone(),
                path: e.path.dup(),
                is_dir: false,
                is_current: false,
                is_on_path: false,
                depth: level_below(connector_state),
            },
        );
        proof {
            assert(child_ok(fs@, files@[fi as int], dir@, false));
            assert(files@[fi as int].path@.len() > dir@.len());
            assert(lines@.len() == l_pre.len() + 1);
            assert(lines@.last().path@ == files@[fi as int].path@);
            assert(lines@.last().path@.drop_last() =~= dir@);
            crate::fspath::lemma_under_refl(dir@);
            assert(row_ok(fs@, lines@.last(), dir@, current@));
            assert forall|i: int|
                old(lines)@.len() <= i < lines@.len() implies row_ok(
                fs@,
                #[trigger] lines@[i],
                dir@,
                current@,
            ) by {
                if i < l_pre.len() {
                    assert(lines@[i] == l_pre[i]);
                    assert(row_ok(fs@, l_pre[i], dir@, current@));
                } else {
                    assert(i == lines@.len() - 1);
                    assert(lines@[i] == lines@.last());
                }
            }
        }
        idx = idx + 1;
        fi = fi + 1;
    }
}

/// The display depth one level below the given connectors.
fn level_below(connector_state: &Vec<bool>) -> (r: usize)
    ensures
        connector_state@.len() < usize::MAX ==> r == connector_state@.len() + 1,
{
    if connector_state.len() < usize::MAX {
        connector_state.len() + 1
    } else {
        connector_state.len()
    }
}

/// An identical copy of a connector vector.
fn dup_bools(v: &Vec<bool>) -> (r: Vec<bool>)
    ensures
        r@ == v@,
{
    let mut r: Vec<bool> = Vec::new();
    let mut i: usize = 0;
    while i < v.len()
        invariant
            i <= v@.len(),
            r@ == v@.take(i as int),
        decreases v.len() - i,
    {
        r.push(v[i]);
        proof {
            assert(v@.take(i as int).push(v@[i as int]) =~= v@.take(i + 1));
        }
        i = i + 1;
    }
    proof {
        assert(v@.take(v@.len() as int) =~= v@);
    }
    r
}

/// Builds the tree rows from `root` down to `current`: the root row, then
/// each level's listing, expanding only directories on the way.  Every row
/// below the root names an existing entry of the store.
pub fn build_tree(fs: &Fs, root: &FsPath, current: &FsPath, show_hidden: bool) -> (r: Vec<
    TreeLine,
>)
    requires
        wf(fs@),
    ensures
        r@.len() >= 1,
        r@[0].path@ == root@,
        r@[0].name@ == (if root@.len() > 0 {
            root@.last()
        } else {
            "/"@
        }),
        r@[0].prefix@ == Seq::<char>::empty(),
        r@[0].is_dir,
        r@[0].is_on_path,
        r@[0].is_current == (root@ == current@),
        r@[0].depth == 0,
        !under(root@, current@) ==> r@.len() == 1,
        forall|i: int| 1 <= i < r@.len() ==> row_ok(fs@, #[trigger] r@[i], root@, current@),
{
    let mut lines: Vec<TreeLine> = Vec::new();
    let root_name = match root.file_name() {
        Some(name) => name,
        None => "/".to_owned(),
    };
    let is_root_current = root == current;
    lines.push(
        TreeLine {
            prefix: String::new(),
            name: root_name,
            path: root.dup(),
            is_dir: true,
            is_current: is_root_current,
            is_on_path: true,
            depth: 0,
        },
    );
    if !root.is_ancestor_of(current) {
        return lines;
    }
    let ahead = current.depth() - root.depth();
    let connectors: Vec<bool> = Vec::new();
    let ghost l1 = lines@;
    expand_dir(fs, root, current, ahead, &mut lines, &connectors, show_hidden);
    proof {
        assert(lines@[0] == l1[0]);
        assert forall|i: int| 1 <= i < lines@.len() implies row_ok(
            fs@,
            #[trigger] lines@[i],
            root@,
            current@,
        ) by {
            assert(lines@[i] == lines@[i]);
        }
    }
    lines
}

} // verus!
