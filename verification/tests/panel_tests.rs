//! Panels, tabs, previews, icons and the tree sidebar.

use fc::fsmodel::{Fs, FsNode};
use fc::fspath::FsPath;
use fc::icons::file_icon;
use fc::panel::{FileEntry, Panel, SortMode};
use fc::preview::{Preview, is_binary_sample};
use fc::tab::{PanelSide, Tab};
use fc::tree::{build_tree, make_prefix};

fn p(s: &str) -> FsPath {
    FsPath::new(
        s.split('/').filter(|c| !c.is_empty()).map(|c| c.to_string()).collect(),
    )
}

fn entry(name: &str, is_dir: bool, size: u64) -> FileEntry {
    FileEntry {
        name: name.to_string(),
        path: p(&format!("/d/{name}")),
        is_dir,
        size,
        modified: None,
        created: None,
        is_symlink: false,
        dir_size: None,
    }
}

#[test]
fn load_dir_groups_and_sorts_by_name() {
    let mut panel = Panel::new(p("/d"));
    panel.load_dir(vec![
        entry("zeta.txt", false, 1),
        entry("Alpha", true, 0),
        entry("beta.txt", false, 2),
        entry("gamma", true, 0),
        entry(".hidden", false, 0),
    ]);
    let names: Vec<&str> = panel.entries.iter().map(|e| e.name.as_str()).collect();
    // Parent row, then directories, then files; hidden entries dropped.
    assert_eq!(names, vec!["..", "Alpha", "gamma", "beta.txt", "zeta.txt"]);
}

#[test]
fn load_dir_shows_hidden_when_asked() {
    let mut panel = Panel::new(p("/d"));
    panel.show_hidden = true;
    panel.load_dir(vec![entry(".hidden", false, 0), entry("seen", false, 0)]);
    let names: Vec<&str> = panel.entries.iter().map(|e| e.name.as_str()).collect();
    assert_eq!(names, vec!["..", ".hidden", "seen"]);
}

#[test]
fn load_dir_sorts_files_by_size() {
    let mut panel = Panel::new(p("/d"));
    panel.sort_mode = SortMode::Size;
    panel.load_dir(vec![
        entry("big", false, 300),
        entry("small", false, 1),
        entry("mid", false, 20),
    ]);
    let names: Vec<&str> = panel.entries.iter().map(|e| e.name.as_str()).collect();
    assert_eq!(names, vec!["..", "small", "mid", "big"]);
}

#[test]
fn load_dir_reverse_flips_order() {
    let mut panel = Panel::new(p("/d"));
    panel.sort_reverse = true;
    panel.load_dir(vec![entry("a", false, 0), entry("b", false, 0)]);
    let names: Vec<&str> = panel.entries.iter().map(|e| e.name.as_str()).collect();
    assert_eq!(names, vec!["..", "b", "a"]);
}

#[test]
fn load_dir_sorts_by_extension_then_name() {
    let mut panel = Panel::new(p("/d"));
    panel.sort_mode = SortMode::Extension;
    panel.load_dir(vec![
        entry("b.rs", false, 0),
        entry("a.txt", false, 0),
        entry("a.rs", false, 0),
    ]);
    let names: Vec<&str> = panel.entries.iter().map(|e| e.name.as_str()).collect();
    assert_eq!(names, vec!["..", "a.rs", "b.rs", "a.txt"]);
}

#[test]
fn cursor_movement_is_clamped() {
    let mut panel = Panel::new(p("/d"));
    panel.load_dir(vec![entry("a", false, 0), entry("b", false, 0)]);
    assert_eq!(panel.entries.len(), 3);
    panel.go_bottom();
    assert_eq!(panel.selected, 2);
    panel.move_down();
    assert_eq!(panel.selected, 2);
    panel.go_top();
    panel.move_up();
    assert_eq!(panel.selected, 0);
    panel.page_down(10);
    assert_eq!(panel.selected, 2);
    panel.page_up(1);
    assert_eq!(panel.selected, 1);
}

#[test]
fn targeted_paths_prefers_marks_and_skips_parent() {
    let mut panel = Panel::new(p("/d"));
    panel.load_dir(vec![entry("a", false, 0), entry("b", false, 0)]);
    // Nothing marked: the single selected entry is targeted, but never "..".
    panel.go_top();
    assert_eq!(panel.targeted_count(), 0);
    panel.move_down();
    assert_eq!(panel.targeted_paths(), vec![p("/d/a")]);
    // Toggle a mark on "b": marks win over the cursor.
    panel.move_down();
    panel.toggle_mark();
    assert_eq!(panel.targeted_paths(), vec![p("/d/b")]);
    assert_eq!(panel.targeted_count(), 1);
}

#[test]
fn visual_range_targets_span() {
    let mut panel = Panel::new(p("/d"));
    panel.load_dir(vec![entry("a", false, 0), entry("b", false, 0), entry("c", false, 0)]);
    panel.go_top();
    panel.visual_anchor = Some(1);
    panel.go_bottom();
    assert_eq!(panel.visual_range(), Some((1, 3)));
    assert_eq!(panel.targeted_paths(), vec![p("/d/a"), p("/d/b"), p("/d/c")]);
}

#[test]
fn enter_and_go_parent_round_trip() {
    let mut panel = Panel::new(p("/d"));
    panel.load_dir(vec![entry("sub", true, 0)]);
    panel.select_by_name("sub");
    assert!(panel.enter_selected());
    assert_eq!(panel.path, p("/d/sub"));
    let name = panel.go_parent().unwrap();
    assert_eq!(name, "sub");
    assert_eq!(panel.path, p("/d"));
}

#[test]
fn tab_switches_active_panel() {
    let mut tab = Tab::new(p("/d"));
    assert_eq!(tab.active, PanelSide::Left);
    tab.switch_panel();
    assert_eq!(tab.active, PanelSide::Right);
    tab.active_panel_mut().selected = 0;
    assert_eq!(tab.inactive_panel_path(), p("/d"));
    tab.switch_panel();
    assert_eq!(tab.active, PanelSide::Left);
}

#[test]
fn sort_mode_labels() {
    assert_eq!(SortMode::Name.label(), "name");
    assert_eq!(SortMode::Size.label(), "size");
    assert_eq!(SortMode::Modified.label(), "mod");
    assert_eq!(SortMode::Created.label(), "cre");
    assert_eq!(SortMode::Extension.label(), "ext");
}

#[test]
fn preview_scrolling_is_bounded() {
    let mut pv = Preview {
        lines: (0..10).map(|i| format!("line {i}")).collect(),
        scroll: 0,
        title: "t".to_string(),
        info: "i".to_string(),
    };
    pv.scroll_down(4, 5);
    assert_eq!(pv.scroll, 4);
    pv.scroll_down(100, 5);
    assert_eq!(pv.scroll, 5);
    pv.scroll_up(2);
    assert_eq!(pv.scroll, 3);
    pv.scroll_up(100);
    assert_eq!(pv.scroll, 0);
}

#[test]
fn binary_detection_finds_control_bytes() {
    assert!(is_binary_sample(&vec![b'h', b'i', 0u8], 8192));
    assert!(!is_binary_sample(&vec![b'h', b'i', b'\n'], 8192));
    // Bytes beyond the window are ignored.
    assert!(!is_binary_sample(&vec![b'a', b'b', 0u8], 2));
}

#[test]
fn file_icon_picks_by_kind_name_and_extension() {
    assert_eq!(file_icon("..", true), "\u{f005e} ");
    assert_eq!(file_icon("src", true), "\u{f0d09} ");
    assert_eq!(file_icon("other", true), "\u{f07b} ");
    assert_eq!(file_icon("Cargo.toml", false), "\u{e7a8} ");
    assert_eq!(file_icon("main.rs", false), "\u{e7a8} ");
    assert_eq!(file_icon("PHOTO.JPG", false), "\u{f1c5} ");
    assert_eq!(file_icon("noext", false), "\u{f016} ");
}

#[test]
fn tree_lists_path_to_current() {
    let mut fs = Fs::empty();
    fs.create(&p("/root"), FsNode::Dir);
    fs.create(&p("/root/a"), FsNode::Dir);
    fs.create(&p("/root/a/b"), FsNode::Dir);
    fs.create(&p("/root/z.txt"), FsNode::File(vec![]));

    let lines = build_tree(&fs, &p("/root"), &p("/root/a"), false);
    assert!(lines.len() >= 3);
    assert_eq!(lines[0].name, "root");
    assert!(lines[0].is_dir);
    assert!(!lines[0].is_current);
    // The expanded level lists "a" (on the path, current) before "z.txt".
    assert_eq!(lines[1].name, "a");
    assert!(lines[1].is_current);
    // "a" is expanded one level further, showing "b".
    let names: Vec<&str> = lines.iter().map(|l| l.name.as_str()).collect();
    assert!(names.contains(&"b"));
    assert!(names.contains(&"z.txt"));
}

#[test]
fn make_prefix_draws_connectors() {
    assert_eq!(make_prefix(&vec![], true), "\u{2514}\u{2500} ");
    assert_eq!(make_prefix(&vec![], false), "\u{251c}\u{2500} ");
    assert_eq!(make_prefix(&vec![true, false], false), "\u{2502}     \u{251c}\u{2500} ");
}
