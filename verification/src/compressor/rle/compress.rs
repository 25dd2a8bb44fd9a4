//! Run-length encoding of a grid: what it gives, and the code that gives it.

use crate::compressor::rle::types::{CompressedFrame, CompressedGrid, CompressionError, RleEntry};
use crate::compressor::runs::{
    counts_positive, expand, is_packed, lemma_encode_round_trip, lemma_expand_holds_items,
    lemma_expand_items_from_runs, run_length_encode, Run,
};
use crate::converter::ascii_pixel::{AsciiPixel, Cell};
use vstd::prelude::*;

verus! {

/// Some cell of the row carries a colour.
pub open spec fn row_has_colored_cell(row: Seq<Cell>) -> bool {
    exists|j: int| 0 <= j < row.len() && (#[trigger] row[j]).color is Some
}

/// Some cell of the frame, in whichever row, carries a colour.
pub open spec fn has_colored_cell(frame: Seq<Seq<Cell>>) -> bool {
    exists|i: int| 0 <= i < frame.len() && row_has_colored_cell(#[trigger] frame[i])
}

/// The compressed form of a frame: the width of its first row (0 without
/// rows), its number of rows, whether any cell is coloured, and the
/// run-length encoding of each row.
pub open spec fn encode_frame(frame: Seq<Seq<Cell>>) -> CompressedFrame {
    CompressedFrame {
        width: if frame.len() == 0 {
            0
        } else {
            frame[0].len() as u32
        },
        height: frame.len() as u32,
        has_color: has_colored_cell(frame),
        rows: Seq::new(frame.len(), |i: int| run_length_encode(frame[i])),
    }
}

/// A frame is rectangular when every row is as long as the first.
pub open spec fn is_rectangular(frame: Seq<Seq<Cell>>) -> bool {
    forall|i: int| 0 <= i < frame.len() ==> (#[trigger] frame[i]).len() == frame[0].len()
}

/// The encoding of a rectangular frame whose size fits keeps the structure
/// of a compressed frame.
pub proof fn lemma_encoding_well_formed(frame: Seq<Seq<Cell>>)
    requires
        frame.len() <= u32::MAX,
        is_rectangular(frame),
        frame.len() > 0 ==> frame[0].len() <= u32::MAX,
    ensures
        encode_frame(frame).well_formed(),
{
    let encoded = encode_frame(frame);
    assert forall|i: int| 0 <= i < encoded.rows.len() implies counts_positive(
        #[trigger] encoded.rows[i],
    ) && expand(encoded.rows[i]).len() == encoded.width by {
        lemma_encode_round_trip(frame[i]);
    }
    if encoded.has_colored_run() {
        let (i, j) = choose|i: int, j: int|
            0 <= i < encoded.rows.len() && 0 <= j < encoded.rows[i].len()
                && (#[trigger] encoded.rows[i][j]).item.color is Some;
        lemma_encode_round_trip(frame[i]);
        lemma_expand_holds_items(encoded.rows[i], j);
        let k = choose|k: int|
            0 <= k < frame[i].len() && frame[i][k] == encoded.rows[i][j].item;
        assert(frame[i][k].color is Some);
    }
    if has_colored_cell(frame) {
        let i = choose|i: int| 0 <= i < frame.len() && row_has_colored_cell(#[trigger] frame[i]);
        let k = choose|k: int| 0 <= k < frame[i].len() && (#[trigger] frame[i][k]).color is Some;
        lemma_encode_round_trip(frame[i]);
        lemma_expand_items_from_runs(encoded.rows[i], k);
        let j = choose|j: int|
            0 <= j < encoded.rows[i].len() && encoded.rows[i][j].item == frame[i][k];
        assert(encoded.rows[i][j].item.color is Some);
    }
}

/// Check if two pixels are equal (character and color must match)
pub fn pixels_equal(a: &AsciiPixel, b: &AsciiPixel) -> (equal: bool)
    ensures
        equal == (a@ == b@),
{
    if a.ch != b.ch {
        return false;
    }
    match (a.rgb, b.rgb) {
        (None, None) => true,
        (Some(x), Some(y)) => x[0] == y[0] && x[1] == y[1] && x[2] == y[2],
        _ => false,
    }
}

/// Whether any pixel of the row has a colour.
pub fn row_has_color(row: &[AsciiPixel]) -> (found: bool)
    ensures
        found == row_has_colored_cell(row.deep_view()),
{
    let mut j: usize = 0;
    while j < row.len()
        invariant
            j <= row.len(),
            forall|k: int| 0 <= k < j ==> (#[trigger] row.deep_view()[k]).color is None,
        decreases row.len() - j,
    {
        if row[j].rgb.is_some() {
            assert(row.deep_view()[j as int].color is Some);
            return true;
        }
        assert(row.deep_view()[j as int].color is None);
        j += 1;
    }
    false
}

/// Whether any pixel of the grid has a colour.
pub fn grid_has_color(grid: &[Vec<AsciiPixel>]) -> (found: bool)
    ensures
        found == has_colored_cell(grid.deep_view()),
{
    let mut i: usize = 0;
    while i < grid.len()
        invariant
            i <= grid.len(),
            forall|k: int| 0 <= k < i ==> !row_has_colored_cell(#[trigger] grid.deep_view()[k]),
        decreases grid.len() - i,
    {
        let row = grid[i].as_slice();
        assert(grid.deep_view()[i as int] =~= row.deep_view());
        if row_has_color(row) {
            return true;
        }
        i += 1;
    }
    false
}

/// Compress a single row using run-length encoding
pub fn compress_row(row: &[AsciiPixel]) -> (compressed_row: Vec<RleEntry>)
    requires
        row.len() <= u32::MAX,
    ensures
        compressed_row.deep_view() == run_length_encode(row.deep_view()),
        is_packed(compressed_row.deep_view()),
        expand(compressed_row.deep_view()) == row.deep_view(),
{
    let mut compressed_row: Vec<RleEntry> = Vec::new();
    let ghost cells = row.deep_view();
    proof {
        lemma_encode_round_trip(cells);
    }
    if row.len() == 0 {
        assert(compressed_row.deep_view() =~= Seq::empty());
        return compressed_row;
    }
    let mut current_pixel = row[0];
    let mut count: u32 = 1;
    let mut i: usize = 1;
    proof {
        reveal_with_fuel(run_length_encode, 2);
        assert(cells.take(1).drop_last() =~= Seq::empty());
        assert(cells.take(1).last() == current_pixel@);
        assert(compressed_row.deep_view() =~= Seq::empty());
        assert(run_length_encode(cells.take(1)) =~= compressed_row.deep_view().push(
            Run { count: 1, item: current_pixel@ },
        ));
    }
    while i < row.len()
        invariant
            1 <= i <= row.len(),
            row.len() <= u32::MAX,
            cells == row.deep_view(),
            1 <= count <= i,
            run_length_encode(cells.take(i as int)) == compressed_row.deep_view().push(
                Run { count, item: current_pixel@ },
            ),
        decreases row.len() - i,
    {
        let pixel = row[i];
        let ghost before = run_length_encode(cells.take(i as int));
        proof {
            assert(cells.take(i + 1).drop_last() =~= cells.take(i as int));
            assert(cells.take(i + 1).last() == pixel@);
            assert(before.last() == (Run { count, item: current_pixel@ }));
            assert(before.drop_last() =~= compressed_row.deep_view());
        }
        if pixels_equal(&pixel, &current_pixel) {
            count += 1;
        } else {
            let ghost old_view = compressed_row.deep_view();
            compressed_row.push(RleEntry { count, pixel: current_pixel });
            assert(compressed_row.deep_view() =~= old_view.push(
                Run { count, item: current_pixel@ },
            ));
            current_pixel = pixel;
            count = 1;
        }
        i += 1;
    }
    let ghost old_view = compressed_row.deep_view();
    compressed_row.push(RleEntry { count, pixel: current_pixel });
    proof {
        assert(compressed_row.deep_view() =~= old_view.push(Run { count, item: current_pixel@ }));
        assert(cells.take(row.len() as int) =~= cells);
    }
    compressed_row
}

/// Compress an ASCII grid using run-length encoding. The grid's size must fit
/// the 32-bit fields of the compressed form; no grid that does is refused.
///
/// The compressed grid declares the width of the first row and the number of
/// rows; its colour flag is set exactly when some pixel has a colour; and each
/// of its rows holds runs that are not empty, that could not be longer, and
/// that write out to the row of the grid. Of a rectangular grid it keeps the
/// structure of a compressed grid.
pub fn compress_grid(grid: &[Vec<AsciiPixel>]) -> (result: Result<
    CompressedGrid,
    CompressionError,
>)
    requires
        grid.len() <= u32::MAX,
        forall|i: int| 0 <= i < grid.len() ==> (#[trigger] grid[i]).len() <= u32::MAX,
    ensures
        result matches Ok(compressed) && compressed@ == encode_frame(grid.deep_view()),
        result matches Ok(compressed) && forall|i: int|
            0 <= i < compressed@.rows.len() ==> is_packed(#[trigger] compressed@.rows[i])
                && expand(compressed@.rows[i]) == grid.deep_view()[i],
        result matches Ok(compressed) && (compressed.has_color <==> has_colored_cell(
            grid.deep_view(),
        )),
        result matches Ok(compressed) && (is_rectangular(grid.deep_view())
            ==> compressed@.well_formed()),
{
    let ghost frame = grid.deep_view();
    proof {
        if is_rectangular(frame) {
            if frame.len() > 0 {
                assert(frame[0] =~= grid[0].deep_view());
            }
            lemma_encoding_well_formed(frame);
        }
    }
    if grid.len() == 0 {
        let empty = CompressedGrid::new(0, 0, false);
        assert(empty@.rows =~= encode_frame(frame).rows);
        return Ok(empty);
    }
    let height = grid.len() as u32;
    let width = grid[0].len() as u32;
    let has_color = grid_has_color(grid);
    let mut compressed = CompressedGrid::new(width, height, has_color);
    assert(compressed.rows.deep_view().len() == 0);
    let mut i: usize = 0;
    while i < grid.len()
        invariant
            i <= grid.len(),
            frame == grid.deep_view(),
            forall|k: int| 0 <= k < grid.len() ==> (#[trigger] grid[k]).len() <= u32::MAX,
            compressed.width == width,
            compressed.height == height,
            compressed.has_color == has_color,
            compressed.rows.len() == i,
            forall|k: int|
                0 <= k < i ==> (#[trigger] compressed.rows.deep_view()[k]) == run_length_encode(
                    frame[k],
                ) && is_packed(compressed.rows.deep_view()[k]) && expand(
                    compressed.rows.deep_view()[k],
                ) == frame[k],
        decreases grid.len() - i,
    {
        let ghost old_rows = compressed.rows.deep_view();
        assert(grid[i as int].len() <= u32::MAX);
        let pixels = grid[i].as_slice();
        assert(frame[i as int] =~= pixels.deep_view());
        let row = compress_row(pixels);
        compressed.rows.push(row);
        assert(compressed.rows.deep_view() =~= old_rows.push(row.deep_view()));
        i += 1;
    }
    assert(compressed@.rows =~= encode_frame(frame).rows);
    assert(frame[0].len() == grid[0].len());
    Ok(compressed)
}

/// Compress an ASCII grid using run-length encoding: `compress_grid` under
/// its other name.
pub fn compress_ascii_grid(grid: &[Vec<AsciiPixel>]) -> (result: Result<
    CompressedGrid,
    CompressionError,
>)
    requires
        grid.len() <= u32::MAX,
        forall|i: int| 0 <= i < grid.len() ==> (#[trigger] grid[i]).len() <= u32::MAX,
    ensures
        result matches Ok(compressed) && compressed@ == encode_frame(grid.deep_view()),
        result matches Ok(compressed) && forall|i: int|
            0 <= i < compressed@.rows.len() ==> is_packed(#[trigger] compressed@.rows[i])
                && expand(compressed@.rows[i]) == grid.deep_view()[i],
        result matches Ok(compressed) && (compressed.has_color <==> has_colored_cell(
            grid.deep_view(),
        )),
        result matches Ok(compressed) && (is_rectangular(grid.deep_view())
            ==> compressed@.well_formed()),
{
    compress_grid(grid)
}

} // verus!
