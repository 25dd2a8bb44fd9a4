//! The compressed grid, its mathematical value, and the errors of decoding.

use crate::compressor::runs::{counts_positive, expand, Run};
use crate::converter::ascii_pixel::{AsciiPixel, Cell};
use vstd::prelude::*;

verus! {

/// A single run-length encoded entry containing a count and a pixel
#[derive(Debug, Clone, Copy, PartialEq, Eq)]
pub struct RleEntry {
    pub count: u32,
    pub pixel: AsciiPixel,
}

impl View for RleEntry {
    type V = Run<Cell>;

    open spec fn view(&self) -> Run<Cell> {
        Run { count: self.count, item: self.pixel@ }
    }
}

impl DeepView for RleEntry {
    type V = Run<Cell>;

    open spec fn deep_view(&self) -> Run<Cell> {
        self@
    }
}

/// The mathematical value of a compressed grid: the declared size and colour
/// flag, and one list of runs for each row.
pub struct CompressedFrame {
    pub width: u32,
    pub height: u32,
    pub has_color: bool,
    pub rows: Seq<Seq<Run<Cell>>>,
}

impl CompressedFrame {
    /// Some run of some row carries a colour.
    pub open spec fn has_colored_run(self) -> bool {
        exists|i: int, j: int|
            0 <= i < self.rows.len() && 0 <= j < self.rows[i].len()
                && (#[trigger] self.rows[i][j]).item.color is Some
    }

    /// The frame keeps its structure: as many rows as the declared height,
    /// each made of runs that are not empty and add up to the declared width,
    /// and a colour flag that is set exactly when some run carries a colour.
    pub open spec fn well_formed(self) -> bool {
        &&& self.rows.len() == self.height
        &&& forall|i: int|
            0 <= i < self.rows.len() ==> counts_positive(#[trigger] self.rows[i]) && expand(
                self.rows[i],
            ).len() == self.width
        &&& self.has_color == self.has_colored_run()
    }
}

/// A compressed ASCII grid using run-length encoding
#[derive(Debug, Clone, PartialEq)]
pub struct CompressedGrid {
    pub width: u32,
    pub height: u32,
    pub has_color: bool,
    pub rows: Vec<Vec<RleEntry>>,
}

impl View for CompressedGrid {
    type V = CompressedFrame;

    open spec fn view(&self) -> CompressedFrame {
        CompressedFrame {
            width: self.width,
            height: self.height,
            has_color: self.has_color,
            rows: self.rows.deep_view(),
        }
    }
}

impl CompressedGrid {
    /// Create a new compressed grid that declares its size and colour flag
    /// and holds no row yet.
    pub fn new(width: u32, height: u32, has_color: bool) -> (grid: Self)
        ensures
            grid@ == (CompressedFrame { width, height, has_color, rows: Seq::empty() }),
    {
        let grid = Self { width, height, has_color, rows: Vec::new() };
        assert(grid.rows.deep_view() =~= Seq::empty());
        grid
    }
}

/// Why a compressed grid cannot be decoded.
#[derive(Debug, Clone, Copy, PartialEq, Eq)]
pub enum CompressionError {
    /// A run declares zero repetitions.
    ZeroCountEntry,
    /// The runs of row `row_index` add up to `actual` cells, not to the
    /// declared width `expected`.
    RowLengthMismatch { row_index: usize, actual: usize, expected: u32 },
    /// The grid holds `actual` rows, not the declared height `expected`.
    RowCountMismatch { actual: usize, expected: u32 },
}

} // verus!
