//! The dual-pane tab: two panels and the active side, plus the small
//! value types shared with the surrounding application shell.

use vstd::prelude::*;

use crate::fspath::FsPath;
use crate::ops::RegisterOp;
use crate::panel::Panel;

verus! {

/// The modal input state of the application.
#[derive(Clone, Copy, PartialEq, Eq, Structural)]
pub enum Mode {
    Normal,
    Visual,
    Select,
    Command,
    Confirm,
    Search,
    Find,
    Help,
    Sort,
    Rename,
    Create,
    Preview,
    ThemePicker,
}

/// Which panel of a tab is active.
#[derive(Clone, Copy, PartialEq, Eq, Structural, Debug)]
pub enum PanelSide {
    Left,
    Right,
}

/// A placeholder row shown in the destination panel while a paste runs.
pub struct PhantomEntry {
    pub name: String,
    pub is_dir: bool,
}

/// The engine-side state of a running paste: intent, destination, and the
/// placeholder rows; the shell pairs it with its receiving channel.
pub struct PasteProgress {
    pub op: RegisterOp,
    pub dst_dir: FsPath,
    pub phantoms: Vec<PhantomEntry>,
}

/// The engine-side state of a running directory-size scan.
pub struct DuProgress {
    pub done: usize,
    pub total: usize,
}

/// One tab of a saved session.
pub struct SavedTab {
    pub left_path: FsPath,
    pub right_path: FsPath,
    pub active_side: String,
}

/// A tab: two panels and the active side.
pub struct Tab {
    pub left: Panel,
    pub right: Panel,
    pub active: PanelSide,
}

impl Tab {
    /// A tab with both panels at the given path, left side active.
    pub fn new(path: FsPath) -> (r: Tab)
        ensures
            r.left.path@ == path@,
            r.right.path@ == path@,
            r.active == PanelSide::Left,
    {
        let left = Panel::new(path.dup());
        let right = Panel::new(path);
        Tab { left, right, active: PanelSide::Left }
    }

    /// The active panel.
    pub fn active_panel(&self) -> (r: &Panel)
        ensures
            self.active == PanelSide::Left ==> r == &self.left,
            self.active == PanelSide::Right ==> r == &self.right,
    {
        match self.active {
            PanelSide::Left => &self.left,
            PanelSide::Right => &self.right,
        }
    }

    /// The active panel, mutably.
    pub fn active_panel_mut(&mut self) -> (r: &mut Panel)
        ensures
            old(self).active == PanelSide::Left ==> *r == old(self).left && *final(self) == (Tab {
                left: *final(r),
                ..*old(self)
            }),
            old(self).active == PanelSide::Right ==> *r == old(self).right && *final(self)
                == (Tab { right: *final(r), ..*old(self) }),
    {
        match self.active {
            PanelSide::Left => &mut self.left,
            PanelSide::Right => &mut self.right,
        }
    }

    /// The path shown in the inactive panel.
    pub fn inactive_panel_path(&self) -> (r: FsPath)
        ensures
            self.active == PanelSide::Left ==> r@ == self.right.path@,
            self.active == PanelSide::Right ==> r@ == self.left.path@,
    {
        match self.active {
            PanelSide::Left => self.right.path.dup(),
            PanelSide::Right => self.left.path.dup(),
        }
    }

    /// Switches the active side.
    pub fn switch_panel(&mut self)
        ensures
            final(self).left == old(self).left,
            final(self).right == old(self).right,
            final(self).active == (match old(self).active {
                PanelSide::Left => PanelSide::Right,
                PanelSide::Right => PanelSide::Left,
            }),
    {
        self.active = match self.active {
            PanelSide::Left => PanelSide::Right,
            PanelSide::Right => PanelSide::Left,
        };
    }
}

} // verus!
