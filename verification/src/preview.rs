//! The preview pane state: loaded lines and a bounded scroll position,
//! plus the text-versus-binary classification of a raw sample.

use vstd::prelude::*;

verus! {

/// A loaded preview: display lines, scroll position, title and info line.
pub struct Preview {
    pub lines: Vec<String>,
    pub scroll: usize,
    pub title: String,
    pub info: String,
}

/// A byte that marks a sample as binary rather than text.
pub open spec fn non_text_byte(b: u8) -> bool {
    b == 0 || b < 0x08 || b == 0x7f
}

/// Whether the first `window` bytes of a sample contain a non-text byte.
pub fn is_binary_sample(bytes: &Vec<u8>, window: usize) -> (r: bool)
    ensures
        r == exists|i: int|
            0 <= i < bytes@.len() && i < window && non_text_byte(#[trigger] bytes@[i]),
{
    let mut i: usize = 0;
    while i < bytes.len() && i < window
        invariant
            i <= bytes@.len(),
            forall|j: int| 0 <= j < i ==> !non_text_byte(#[trigger] bytes@[j]),
        decreases bytes.len() - i,
    {
        let b = bytes[i];
        if b == 0 || b < 0x08 || b == 0x7f {
            return true;
        }
        i = i + 1;
    }
    false
}

impl Preview {
    /// Scrolls up by `n` lines, stopping at the top.
    pub fn scroll_up(&mut self, n: usize)
        ensures
            final(self).lines == old(self).lines,
            final(self).title == old(self).title,
            final(self).info == old(self).info,
            final(self).scroll == (if old(self).scroll >= n {
                (old(self).scroll - n) as usize
            } else {
                0
            }),
    {
        if self.scroll >= n {
            self.scroll = self.scroll - n;
        } else {
            self.scroll = 0;
        }
    }

    /// Scrolls down by `n` lines, stopping so the last visible row shows
    /// the last line.
    pub fn scroll_down(&mut self, n: usize, visible: usize)
        ensures
            final(self).lines == old(self).lines,
            final(self).title == old(self).title,
            final(self).info == old(self).info,
            ({
                let max: int = if old(self).lines@.len() >= visible {
                    old(self).lines@.len() - visible
                } else {
                    0
                };
                final(self).scroll == (if old(self).scroll + n <= max {
                    (old(self).scroll + n) as usize
                } else {
                    max as usize
                })
            }),
    {
        let max: usize = if self.lines.len() >= visible {
            self.lines.len() - visible
        } else {
            0
        };
        if self.scroll >= max {
            self.scroll = max;
        } else if max - self.scroll <= n {
            self.scroll = max;
        } else {
            self.scroll = self.scroll + n;
        }
    }
}

} // verus!
