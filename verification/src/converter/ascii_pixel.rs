//! The cell of a frame: a character and its colour, if it has one.

use vstd::prelude::*;

verus! {

/// The mathematical value of one cell: a character and, in colour mode, its
/// three colour channels.
pub struct Cell {
    pub ch: char,
    pub color: Option<(u8, u8, u8)>,
}

/// Represents a single ASCII pixel, with optional color.
#[derive(Debug, Clone, Copy, PartialEq, Eq)]
pub struct AsciiPixel {
    pub ch: char,
    /// `None` for no-color output.
    pub rgb: Option<[u8; 3]>,
}

impl View for AsciiPixel {
    type V = Cell;

    open spec fn view(&self) -> Cell {
        Cell {
            ch: self.ch,
            color: match self.rgb {
                Some(c) => Some((c[0], c[1], c[2])),
                None => None,
            },
        }
    }
}

impl DeepView for AsciiPixel {
    type V = Cell;

    open spec fn deep_view(&self) -> Cell {
        self@
    }
}

} // verus!
