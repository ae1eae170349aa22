//! The mutation engine: primitives, conflict resolution, paste, du, undo.

use fc::fsmodel::{Fs, FsNode};
use fc::fspath::FsPath;
use fc::ops::{
    DuMsg, FcError, OpRecord, ProgressMsg, RegisterOp, UndoStack, delete_path, mkdir, paste,
    path_size, rename_path, resolve_conflict, touch, undo, undo_record, unique_trash_name,
    du_scan, filename, is_cross_device, remove_path, MAX_UNDO,
};

fn p(s: &str) -> FsPath {
    FsPath::new(
        s.split('/').filter(|c| !c.is_empty()).map(|c| c.to_string()).collect(),
    )
}

fn file(fs: &mut Fs, path: &str, bytes: Vec<u8>) {
    fs.create(&p(path), FsNode::File(bytes));
}

fn dir(fs: &mut Fs, path: &str) {
    fs.create(&p(path), FsNode::Dir);
}

// --- UndoStack ---

#[test]
fn undo_stack_push_pop() {
    let mut stack = UndoStack::new();
    assert!(stack.pop().is_none());

    stack.push(vec![OpRecord::Created { path: p("/tmp/test") }]);
    assert!(stack.pop().is_some());
    assert!(stack.pop().is_none());
}

#[test]
fn undo_stack_ignores_empty() {
    let mut stack = UndoStack::new();
    stack.push(vec![]);
    assert!(stack.pop().is_none());
}

#[test]
fn undo_stack_max_limit() {
    let mut stack = UndoStack::new();
    for i in 0..MAX_UNDO + 20 {
        stack.push(vec![OpRecord::Created { path: p(&format!("/tmp/{i}")) }]);
    }
    assert_eq!(stack.len(), MAX_UNDO);
}

#[test]
fn undo_stack_evicts_oldest() {
    let mut stack = UndoStack::new();
    for i in 0..MAX_UNDO + 20 {
        stack.push(vec![OpRecord::Created { path: p(&format!("/tmp/{i}")) }]);
    }
    // The most recent batch is the last pushed; the oldest 20 are gone.
    let top = stack.pop().unwrap();
    match &top[0] {
        OpRecord::Created { path } => assert_eq!(*path, p(&format!("/tmp/{}", MAX_UNDO + 19))),
        _ => panic!("expected Created"),
    }
    for _ in 0..MAX_UNDO - 1 {
        assert!(stack.pop().is_some());
    }
    assert!(stack.pop().is_none());
}

// --- resolve_conflict ---

#[test]
fn resolve_conflict_no_conflict() {
    let mut fs = Fs::empty();
    dir(&mut fs, "/d");
    let result = resolve_conflict(&fs, &p("/d"), "newfile.txt");
    assert_eq!(result, p("/d/newfile.txt"));
}

#[test]
fn resolve_conflict_with_existing() {
    let mut fs = Fs::empty();
    dir(&mut fs, "/d");
    file(&mut fs, "/d/file.txt", vec![]);
    let result = resolve_conflict(&fs, &p("/d"), "file.txt");
    assert_eq!(result, p("/d/file_1.txt"));
}

#[test]
fn resolve_conflict_multiple() {
    let mut fs = Fs::empty();
    dir(&mut fs, "/d");
    file(&mut fs, "/d/file.txt", vec![]);
    file(&mut fs, "/d/file_1.txt", vec![]);
    file(&mut fs, "/d/file_2.txt", vec![]);
    let result = resolve_conflict(&fs, &p("/d"), "file.txt");
    assert_eq!(result, p("/d/file_3.txt"));
}

#[test]
fn resolve_conflict_no_extension() {
    let mut fs = Fs::empty();
    dir(&mut fs, "/d");
    file(&mut fs, "/d/Makefile", vec![]);
    let result = resolve_conflict(&fs, &p("/d"), "Makefile");
    assert_eq!(result, p("/d/Makefile_1"));
}

#[test]
fn resolve_conflict_hidden_name() {
    let mut fs = Fs::empty();
    dir(&mut fs, "/d");
    file(&mut fs, "/d/.gitignore", vec![]);
    // A leading dot does not begin an extension.
    let result = resolve_conflict(&fs, &p("/d"), ".gitignore");
    assert_eq!(result, p("/d/.gitignore_1"));
}

// --- mkdir, touch, rename ---

#[test]
fn mkdir_creates_directory() {
    let mut fs = Fs::empty();
    dir(&mut fs, "/d");
    let rec = mkdir(&mut fs, &p("/d"), "subdir").unwrap();
    assert!(fs.is_dir(&p("/d/subdir")));
    match rec {
        OpRecord::Created { path } => assert_eq!(path, p("/d/subdir")),
        _ => panic!("expected Created"),
    }
}

#[test]
fn mkdir_creates_missing_ancestors() {
    let mut fs = Fs::empty();
    let rec = mkdir(&mut fs, &p("/a/b"), "c").unwrap();
    assert!(fs.is_dir(&p("/a")));
    assert!(fs.is_dir(&p("/a/b")));
    assert!(fs.is_dir(&p("/a/b/c")));
    match rec {
        OpRecord::Created { path } => assert_eq!(path, p("/a/b/c")),
        _ => panic!("expected Created"),
    }
}

#[test]
fn mkdir_rejects_file_in_path() {
    let mut fs = Fs::empty();
    file(&mut fs, "/blocker", vec![1]);
    let err = mkdir(&mut fs, &p("/blocker"), "sub");
    assert_eq!(err, Err(FcError::NotADirectory));
}

#[test]
fn touch_creates_file() {
    let mut fs = Fs::empty();
    dir(&mut fs, "/d");
    let rec = touch(&mut fs, &p("/d"), "newfile").unwrap();
    assert!(fs.is_file(&p("/d/newfile")));
    match rec {
        OpRecord::Created { path } => assert_eq!(path, p("/d/newfile")),
        _ => panic!("expected Created"),
    }
}

#[test]
fn touch_rejects_existing() {
    let mut fs = Fs::empty();
    dir(&mut fs, "/d");
    file(&mut fs, "/d/exists", vec![]);
    let err = touch(&mut fs, &p("/d"), "exists");
    assert_eq!(err, Err(FcError::AlreadyExists));
}

#[test]
fn touch_rejects_missing_parent() {
    let mut fs = Fs::empty();
    let err = touch(&mut fs, &p("/missing"), "f");
    assert_eq!(err, Err(FcError::NotFound));
}

#[test]
fn rename_works() {
    let mut fs = Fs::empty();
    dir(&mut fs, "/d");
    file(&mut fs, "/d/old", b"content".to_vec());
    let rec = rename_path(&mut fs, &p("/d/old"), "new").unwrap();
    assert!(!fs.exists_path(&p("/d/old")));
    assert!(fs.is_file(&p("/d/new")));
    assert_eq!(fs.read_file(&p("/d/new")).unwrap(), b"content".to_vec());
    match rec {
        OpRecord::Renamed { from, to } => {
            assert_eq!(from, p("/d/old"));
            assert_eq!(to, p("/d/new"));
        }
        _ => panic!("expected Renamed"),
    }
}

#[test]
fn rename_rejects_existing_target() {
    let mut fs = Fs::empty();
    dir(&mut fs, "/d");
    file(&mut fs, "/d/a", vec![]);
    file(&mut fs, "/d/b", vec![]);
    let err = rename_path(&mut fs, &p("/d/a"), "b");
    assert_eq!(err, Err(FcError::AlreadyExists));
}

#[test]
fn rename_rejects_root() {
    let mut fs = Fs::empty();
    let err = rename_path(&mut fs, &FsPath::root(), "x");
    assert_eq!(err, Err(FcError::InvalidInput));
}

// --- undo ---

#[test]
fn undo_created_file() {
    let mut fs = Fs::empty();
    dir(&mut fs, "/d");
    file(&mut fs, "/d/file", vec![]);
    let records = vec![OpRecord::Created { path: p("/d/file") }];
    let msg = undo(&mut fs, &records).unwrap();
    assert_eq!(msg, "Undone 1 operation(s)");
    assert!(!fs.exists_path(&p("/d/file")));
    assert!(fs.is_dir(&p("/d")));
}

#[test]
fn undo_renamed() {
    let mut fs = Fs::empty();
    dir(&mut fs, "/d");
    file(&mut fs, "/d/new", b"content".to_vec());
    let records = vec![OpRecord::Renamed { from: p("/d/old"), to: p("/d/new") }];
    undo(&mut fs, &records).unwrap();
    assert!(!fs.exists_path(&p("/d/new")));
    assert!(fs.is_file(&p("/d/old")));
    assert_eq!(fs.read_file(&p("/d/old")).unwrap(), b"content".to_vec());
}

#[test]
fn undo_empty_batch_reports_zero() {
    let mut fs = Fs::empty();
    let msg = undo(&mut fs, &vec![]).unwrap();
    assert_eq!(msg, "Undone 0 operation(s)");
}

#[test]
fn undo_stops_at_first_failure() {
    let mut fs = Fs::empty();
    dir(&mut fs, "/d");
    file(&mut fs, "/d/one", vec![]);
    // The second (earlier) record refers to a missing path.
    let records = vec![
        OpRecord::Created { path: p("/d/missing") },
        OpRecord::Created { path: p("/d/one") },
    ];
    let err = undo(&mut fs, &records);
    assert_eq!(err, Err(FcError::NotFound));
    // The most recent record was undone before the failure.
    assert!(!fs.exists_path(&p("/d/one")));
}

// --- delete to trash and restore ---

#[test]
fn delete_then_undo_restores() {
    let mut fs = Fs::empty();
    dir(&mut fs, "/home/user/doc");
    file(&mut fs, "/home/user/doc/a.txt", b"hello".to_vec());
    let trash = p("/home/user/trash");
    let rec = delete_path(&mut fs, &p("/home/user/doc/a.txt"), &trash, 77).unwrap();
    assert!(!fs.exists_path(&p("/home/user/doc/a.txt")));
    let (original, trash_path) = match &rec {
        OpRecord::Deleted { original, trash } => (original.dup(), trash.dup()),
        _ => panic!("expected Deleted"),
    };
    assert_eq!(original, p("/home/user/doc/a.txt"));
    assert_eq!(trash_path, p("/home/user/trash/77_a.txt"));
    assert_eq!(fs.read_file(&trash_path).unwrap(), b"hello".to_vec());

    undo_record(&mut fs, &rec).unwrap();
    assert_eq!(
        fs.read_file(&p("/home/user/doc/a.txt")).unwrap(),
        b"hello".to_vec()
    );
    assert!(!fs.exists_path(&trash_path));
}

#[test]
fn undo_deleted_fails_when_occupied() {
    let mut fs = Fs::empty();
    dir(&mut fs, "/home/doc");
    file(&mut fs, "/home/doc/a", b"old".to_vec());
    let trash = p("/home/trash");
    let rec = delete_path(&mut fs, &p("/home/doc/a"), &trash, 9).unwrap();
    // Something else now occupies the original path.
    file(&mut fs, "/home/doc/a", b"new".to_vec());
    // The whole batch undo reports the explicit error kind.
    let err = undo(&mut fs, &vec![rec]);
    assert_eq!(err, Err(FcError::AlreadyExists));
    // Nothing was overwritten and the trash entry stays in place.
    assert_eq!(fs.read_file(&p("/home/doc/a")).unwrap(), b"new".to_vec());
    assert_eq!(fs.read_file(&p("/home/trash/9_a")).unwrap(), b"old".to_vec());
}

#[test]
fn undo_record_reports_occupied_original() {
    let mut fs = Fs::empty();
    dir(&mut fs, "/home/doc");
    file(&mut fs, "/home/doc/a", b"old".to_vec());
    let trash = p("/home/trash");
    let rec = delete_path(&mut fs, &p("/home/doc/a"), &trash, 9).unwrap();
    file(&mut fs, "/home/doc/a", b"new".to_vec());
    let err = undo_record(&mut fs, &rec);
    assert_eq!(err, Err(FcError::AlreadyExists));
}

#[test]
fn unique_trash_name_embeds_timestamp() {
    let t = unique_trash_name(&p("/trash"), "report.pdf", 123456789);
    assert_eq!(t, p("/trash/123456789_report.pdf"));
}

// --- path_size ---

#[test]
fn path_size_file() {
    let mut fs = Fs::empty();
    dir(&mut fs, "/d");
    file(&mut fs, "/d/test.dat", b"12345".to_vec());
    assert_eq!(path_size(&fs, &p("/d/test.dat")), 5);
}

#[test]
fn path_size_dir() {
    let mut fs = Fs::empty();
    dir(&mut fs, "/d");
    file(&mut fs, "/d/a", b"123".to_vec());
    file(&mut fs, "/d/b", b"45678".to_vec());
    assert_eq!(path_size(&fs, &p("/d")), 8);
}

#[test]
fn path_size_missing_is_zero() {
    let fs = Fs::empty();
    assert_eq!(path_size(&fs, &p("/nothing")), 0);
}

// --- paste: yank (copy) ---

#[test]
fn copy_dir_recursive() {
    let mut fs = Fs::empty();
    dir(&mut fs, "/src");
    dir(&mut fs, "/src/sub");
    file(&mut fs, "/src/a.txt", b"hello".to_vec());
    file(&mut fs, "/src/sub/b.txt", b"world".to_vec());
    dir(&mut fs, "/dst");

    let msgs = paste(&mut fs, &vec![p("/src")], &p("/dst"), RegisterOp::Yank);
    match msgs.last().unwrap() {
        ProgressMsg::Finished { error, .. } => assert!(error.is_none()),
        _ => panic!("expected Finished last"),
    }

    // Destination reproduces structure and contents.
    assert!(fs.is_dir(&p("/dst/src")));
    assert!(fs.is_dir(&p("/dst/src/sub")));
    assert_eq!(fs.read_file(&p("/dst/src/a.txt")).unwrap(), b"hello".to_vec());
    assert_eq!(fs.read_file(&p("/dst/src/sub/b.txt")).unwrap(), b"world".to_vec());
    // Source untouched.
    assert_eq!(fs.read_file(&p("/src/a.txt")).unwrap(), b"hello".to_vec());
    assert_eq!(fs.read_file(&p("/src/sub/b.txt")).unwrap(), b"world".to_vec());
}

#[test]
fn yank_two_files_reports_totals() {
    let mut fs = Fs::empty();
    dir(&mut fs, "/src");
    file(&mut fs, "/src/small", vec![1u8; 100]);
    file(&mut fs, "/src/page", vec![2u8; 4096]);
    dir(&mut fs, "/dst");

    let msgs = paste(
        &mut fs,
        &vec![p("/src/small"), p("/src/page")],
        &p("/dst"),
        RegisterOp::Yank,
    );
    match msgs.last().unwrap() {
        ProgressMsg::Finished { records, error, bytes_total } => {
            assert!(error.is_none());
            assert_eq!(*bytes_total, 4196);
            assert_eq!(records.len(), 2);
        }
        _ => panic!("expected Finished last"),
    }
    // Both present under their original names: no renaming happened.
    assert_eq!(fs.read_file(&p("/dst/small")).unwrap(), vec![1u8; 100]);
    assert_eq!(fs.read_file(&p("/dst/page")).unwrap(), vec![2u8; 4096]);
}

#[test]
fn yank_resolves_name_collision() {
    let mut fs = Fs::empty();
    dir(&mut fs, "/src");
    file(&mut fs, "/src/f.txt", b"x".to_vec());
    dir(&mut fs, "/dst");
    file(&mut fs, "/dst/f.txt", b"other".to_vec());

    let msgs = paste(&mut fs, &vec![p("/src/f.txt")], &p("/dst"), RegisterOp::Yank);
    match msgs.last().unwrap() {
        ProgressMsg::Finished { error, .. } => assert!(error.is_none()),
        _ => panic!("expected Finished last"),
    }
    // The existing file is never overwritten.
    assert_eq!(fs.read_file(&p("/dst/f.txt")).unwrap(), b"other".to_vec());
    assert_eq!(fs.read_file(&p("/dst/f_1.txt")).unwrap(), b"x".to_vec());
}

#[test]
fn paste_progress_is_monotone_and_capped() {
    let mut fs = Fs::empty();
    dir(&mut fs, "/src");
    file(&mut fs, "/src/a", vec![0u8; 10]);
    file(&mut fs, "/src/b", vec![0u8; 20]);
    file(&mut fs, "/src/c", vec![0u8; 30]);
    dir(&mut fs, "/dst");

    let msgs = paste(
        &mut fs,
        &vec![p("/src/a"), p("/src/b"), p("/src/c")],
        &p("/dst"),
        RegisterOp::Yank,
    );
    let mut prev: u64 = 0;
    let mut finished = 0;
    for (i, m) in msgs.iter().enumerate() {
        match m {
            ProgressMsg::Progress { bytes_done, bytes_total, .. } => {
                assert!(*bytes_done >= prev);
                assert!(*bytes_done <= *bytes_total);
                assert_eq!(*bytes_total, 60);
                prev = *bytes_done;
            }
            ProgressMsg::Finished { bytes_total, error, .. } => {
                finished += 1;
                assert_eq!(i, msgs.len() - 1);
                assert_eq!(*bytes_total, 60);
                assert!(error.is_none());
            }
        }
    }
    assert_eq!(finished, 1);
    // On success the last Progress reaches the total.
    assert_eq!(prev, 60);
}

#[test]
fn paste_into_file_destination_fails() {
    let mut fs = Fs::empty();
    dir(&mut fs, "/src");
    file(&mut fs, "/src/a", vec![1]);
    file(&mut fs, "/notadir", vec![2]);

    let msgs = paste(&mut fs, &vec![p("/src/a")], &p("/notadir"), RegisterOp::Yank);
    match msgs.last().unwrap() {
        ProgressMsg::Finished { records, error, .. } => {
            assert!(error.is_some());
            assert_eq!(records.len(), 0);
        }
        _ => panic!("expected Finished last"),
    }
}

// --- paste: cut (move) ---

#[test]
fn move_dir_same_filesystem() {
    let mut fs = Fs::empty();
    dir(&mut fs, "/srcdir");
    file(&mut fs, "/srcdir/inner", b"abc".to_vec());
    dir(&mut fs, "/dst");

    let msgs = paste(&mut fs, &vec![p("/srcdir")], &p("/dst"), RegisterOp::Cut);
    match msgs.last().unwrap() {
        ProgressMsg::Finished { records, error, .. } => {
            assert!(error.is_none());
            assert_eq!(records.len(), 1);
            match &records[0] {
                OpRecord::Moved { src, dst } => {
                    assert_eq!(src.dup(), p("/srcdir"));
                    assert_eq!(dst.dup(), p("/dst/srcdir"));
                }
                _ => panic!("expected Moved"),
            }
        }
        _ => panic!("expected Finished last"),
    }
    assert!(!fs.exists_path(&p("/srcdir")));
    assert!(fs.is_dir(&p("/dst/srcdir")));
    assert_eq!(fs.read_file(&p("/dst/srcdir/inner")).unwrap(), b"abc".to_vec());
}

#[test]
fn cut_into_same_directory_is_noop() {
    let mut fs = Fs::empty();
    dir(&mut fs, "/d");
    file(&mut fs, "/d/f", b"data".to_vec());
    let before_size = path_size(&fs, &FsPath::root());

    let msgs = paste(&mut fs, &vec![p("/d/f")], &p("/d"), RegisterOp::Cut);
    match msgs.last().unwrap() {
        ProgressMsg::Finished { records, error, bytes_total } => {
            assert!(error.is_none());
            assert_eq!(records.len(), 0);
            // A skipped self-move contributes nothing to the total.
            assert_eq!(*bytes_total, 0);
        }
        _ => panic!("expected Finished last"),
    }
    // No filesystem change at all.
    assert_eq!(fs.read_file(&p("/d/f")).unwrap(), b"data".to_vec());
    assert_eq!(path_size(&fs, &FsPath::root()), before_size);
}

#[test]
fn cut_with_skip_still_reaches_total() {
    let mut fs = Fs::empty();
    dir(&mut fs, "/d");
    file(&mut fs, "/d/stay", vec![9u8; 50]);
    dir(&mut fs, "/e");
    file(&mut fs, "/e/go", vec![7u8; 30]);

    // The first source is a self-move no-op; only the second is counted.
    let msgs = paste(
        &mut fs,
        &vec![p("/d/stay"), p("/e/go")],
        &p("/d"),
        RegisterOp::Cut,
    );
    let mut last_progress: u64 = 0;
    for m in msgs.iter() {
        match m {
            ProgressMsg::Progress { bytes_done, bytes_total, .. } => {
                assert_eq!(*bytes_total, 30);
                last_progress = *bytes_done;
            }
            ProgressMsg::Finished { records, error, bytes_total } => {
                assert!(error.is_none());
                assert_eq!(*bytes_total, 30);
                assert_eq!(records.len(), 1);
            }
        }
    }
    // On success the last progress value reaches the (skip-free) total.
    assert_eq!(last_progress, 30);
    assert!(fs.is_file(&p("/d/go")));
    assert!(fs.is_file(&p("/d/stay")));
}

#[test]
fn paste_rejects_nested_sources() {
    let mut fs = Fs::empty();
    dir(&mut fs, "/a");
    file(&mut fs, "/a/inner", vec![1u8; 10]);
    dir(&mut fs, "/dst");
    let before_size = path_size(&fs, &FsPath::root());

    let msgs = paste(
        &mut fs,
        &vec![p("/a"), p("/a/inner")],
        &p("/dst"),
        RegisterOp::Yank,
    );
    assert_eq!(msgs.len(), 2);
    match &msgs[1] {
        ProgressMsg::Finished { records, error, bytes_total } => {
            assert!(error.is_some());
            assert_eq!(records.len(), 0);
            assert_eq!(*bytes_total, 0);
        }
        _ => panic!("expected Finished last"),
    }
    // Nothing was touched.
    assert!(!fs.exists_path(&p("/dst/a")));
    assert_eq!(path_size(&fs, &FsPath::root()), before_size);
}

#[test]
fn paste_rejects_missing_source() {
    let mut fs = Fs::empty();
    dir(&mut fs, "/dst");
    let msgs = paste(&mut fs, &vec![p("/ghost")], &p("/dst"), RegisterOp::Yank);
    match msgs.last().unwrap() {
        ProgressMsg::Finished { records, error, .. } => {
            assert!(error.is_some());
            assert_eq!(records.len(), 0);
        }
        _ => panic!("expected Finished last"),
    }
}

#[test]
fn cut_then_undo_moves_back() {
    let mut fs = Fs::empty();
    dir(&mut fs, "/a");
    file(&mut fs, "/a/f", b"zz".to_vec());
    dir(&mut fs, "/b");

    let msgs = paste(&mut fs, &vec![p("/a/f")], &p("/b"), RegisterOp::Cut);
    let records = match msgs.into_iter().last().unwrap() {
        ProgressMsg::Finished { records, error, .. } => {
            assert!(error.is_none());
            records
        }
        _ => panic!("expected Finished last"),
    };
    assert!(fs.is_file(&p("/b/f")));
    assert!(!fs.exists_path(&p("/a/f")));

    undo(&mut fs, &records).unwrap();
    assert!(fs.is_file(&p("/a/f")));
    assert!(!fs.exists_path(&p("/b/f")));
    assert_eq!(fs.read_file(&p("/a/f")).unwrap(), b"zz".to_vec());
}

// --- du ---

#[test]
fn du_scan_reports_each_directory() {
    let mut fs = Fs::empty();
    dir(&mut fs, "/x");
    file(&mut fs, "/x/a", vec![0u8; 7]);
    dir(&mut fs, "/y");
    file(&mut fs, "/y/b", vec![0u8; 11]);

    let msgs = du_scan(&fs, &vec![p("/x"), p("/y")]);
    assert_eq!(msgs.len(), 3);
    match &msgs[0] {
        DuMsg::Progress { done, total, current } => {
            assert_eq!((*done, *total), (0, 2));
            assert_eq!(current, "x");
        }
        _ => panic!("expected Progress"),
    }
    match &msgs[2] {
        DuMsg::Finished { sizes } => {
            assert_eq!(sizes.len(), 2);
            assert_eq!(sizes[0].1, 7);
            assert_eq!(sizes[1].1, 11);
        }
        _ => panic!("expected Finished"),
    }
}

// --- small helpers ---

#[test]
fn filename_and_cross_device() {
    assert_eq!(filename(&p("/a/b.txt")).unwrap(), "b.txt");
    assert_eq!(filename(&FsPath::root()), Err(FcError::InvalidInput));
    assert!(is_cross_device(18));
    assert!(!is_cross_device(2));
}

#[test]
fn remove_path_missing_is_not_found() {
    let mut fs = Fs::empty();
    assert_eq!(remove_path(&mut fs, &p("/gone")), Err(FcError::NotFound));
}
