//! Run-length decoding of a grid: what it gives, when it refuses, and the
//! code that does it.

use crate::compressor::rle::compress::{encode_frame, is_rectangular};
use crate::compressor::rle::types::{CompressedFrame, CompressedGrid, CompressionError, RleEntry};
use crate::compressor::runs::{
    counts_positive, expand, lemma_encode_round_trip, lemma_expand_push, repeat, Run,
};
use crate::converter::ascii_pixel::{AsciiPixel, Cell};
use vstd::prelude::*;

verus! {

/// What is wrong with row `i` of a compressed frame, if anything: a run
/// without repetitions, or else runs that do not add up to the declared width.
pub open spec fn row_fault(frame: CompressedFrame, i: int) -> Option<CompressionError> {
    let runs = frame.rows[i];
    if !counts_positive(runs) {
        Some(CompressionError::ZeroCountEntry)
    } else if expand(runs).len() != frame.width {
        Some(
            CompressionError::RowLengthMismatch {
                row_index: i as usize,
                actual: expand(runs).len() as usize,
                expected: frame.width,
            },
        )
    } else {
        None
    }
}

/// The first `n` rows written out, or the fault of the first faulty row among
/// them.
pub open spec fn decode_rows(frame: CompressedFrame, n: nat) -> Result<
    Seq<Seq<Cell>>,
    CompressionError,
>
    decreases n,
{
    if n == 0 {
        Ok(Seq::empty())
    } else {
        match decode_rows(frame, (n - 1) as nat) {
            Err(fault) => Err(fault),
            Ok(done) => match row_fault(frame, n - 1) {
                Some(fault) => Err(fault),
                None => Ok(done.push(expand(frame.rows[n - 1]))),
            },
        }
    }
}

/// What decoding a compressed frame gives. A frame that declares no width or
/// no height stands for the empty frame, whatever its rows hold. Otherwise
/// the rows are written out in order; the first faulty row decides the
/// error, and a frame whose rows are all sound must still hold as many rows
/// as it declares.
pub open spec fn decode_frame(frame: CompressedFrame) -> Result<Seq<Seq<Cell>>, CompressionError> {
    if frame.width == 0 || frame.height == 0 {
        Ok(Seq::empty())
    } else {
        match decode_rows(frame, frame.rows.len()) {
            Err(fault) => Err(fault),
            Ok(rows) => if frame.rows.len() != frame.height {
                Err(
                    CompressionError::RowCountMismatch {
                        actual: frame.rows.len() as usize,
                        expected: frame.height,
                    },
                )
            } else {
                Ok(rows)
            },
        }
    }
}

/// Every row written out.
pub open spec fn written_out(rows: Seq<Seq<Run<Cell>>>) -> Seq<Seq<Cell>> {
    Seq::new(rows.len(), |i: int| expand(rows[i]))
}

/// Rows without a fault are written out one by one.
proof fn lemma_decode_sound_rows(frame: CompressedFrame, n: nat)
    requires
        n <= frame.rows.len(),
        forall|j: int| 0 <= j < n ==> (#[trigger] row_fault(frame, j)) is None,
    ensures
        decode_rows(frame, n) == Ok::<Seq<Seq<Cell>>, CompressionError>(
            written_out(frame.rows.take(n as int)),
        ),
    decreases n,
{
    if n == 0 {
        assert(written_out(frame.rows.take(0)) =~= Seq::empty());
    } else {
        lemma_decode_sound_rows(frame, (n - 1) as nat);
        assert(row_fault(frame, n - 1) is None);
        assert(written_out(frame.rows.take(n - 1)).push(expand(frame.rows[n - 1]))
            =~= written_out(frame.rows.take(n as int)));
    }
}

/// Decoding rejects a corrupt structure, and the first faulty row decides
/// how: where the frame declares a width and a height, the rows before row
/// `i` are sound and row `i` is not, decoding fails with the fault of row
/// `i`. That is `ZeroCountEntry` where one of its runs declares no
/// repetitions, and otherwise `RowLengthMismatch`, with the row's place, the
/// number of cells that its runs add up to, and the declared width.
pub proof fn lemma_first_fault_decides(frame: CompressedFrame, i: int)
    requires
        frame.width > 0,
        frame.height > 0,
        0 <= i < frame.rows.len(),
        forall|j: int| 0 <= j < i ==> (#[trigger] row_fault(frame, j)) is None,
        row_fault(frame, i) is Some,
    ensures
        decode_frame(frame) == Err::<Seq<Seq<Cell>>, CompressionError>(
            row_fault(frame, i)->Some_0,
        ),
        !counts_positive(frame.rows[i]) ==> decode_frame(frame) == Err::<
            Seq<Seq<Cell>>,
            CompressionError,
        >(CompressionError::ZeroCountEntry),
        counts_positive(frame.rows[i]) ==> decode_frame(frame) == Err::<
            Seq<Seq<Cell>>,
            CompressionError,
        >(
            CompressionError::RowLengthMismatch {
                row_index: i as usize,
                actual: expand(frame.rows[i]).len() as usize,
                expected: frame.width,
            },
        ),
{
    lemma_decode_sound_rows(frame, i as nat);
    assert(decode_rows(frame, (i + 1) as nat) is Err);
    lemma_decode_rows_fault_stays(frame, (i + 1) as nat, frame.rows.len());
}

/// Where the frame declares a width and a height and every row is sound,
/// decoding depends on the number of rows alone: the rows written out where
/// it is the declared height, `RowCountMismatch` with both numbers where it
/// is not.
pub proof fn lemma_sound_rows_are_counted(frame: CompressedFrame)
    requires
        frame.width > 0,
        frame.height > 0,
        forall|j: int| 0 <= j < frame.rows.len() ==> (#[trigger] row_fault(frame, j)) is None,
    ensures
        frame.rows.len() == frame.height ==> decode_frame(frame) == Ok::<
            Seq<Seq<Cell>>,
            CompressionError,
        >(written_out(frame.rows)),
        frame.rows.len() != frame.height ==> decode_frame(frame) == Err::<
            Seq<Seq<Cell>>,
            CompressionError,
        >(
            CompressionError::RowCountMismatch {
                actual: frame.rows.len() as usize,
                expected: frame.height,
            },
        ),
{
    lemma_decode_sound_rows(frame, frame.rows.len());
    assert(frame.rows.take(frame.rows.len() as int) =~= frame.rows);
}

/// Rows that were written out had no fault.
proof fn lemma_decoded_rows_were_sound(frame: CompressedFrame, n: nat)
    requires
        n <= frame.rows.len(),
        decode_rows(frame, n) is Ok,
    ensures
        forall|j: int| 0 <= j < n ==> (#[trigger] row_fault(frame, j)) is None,
        decode_rows(frame, n) == Ok::<Seq<Seq<Cell>>, CompressionError>(
            written_out(frame.rows.take(n as int)),
        ),
    decreases n,
{
    if n > 0 {
        lemma_decoded_rows_were_sound(frame, (n - 1) as nat);
    }
    lemma_decode_sound_rows(frame, n);
}

/// Decoding accepts no corrupt structure: a frame that declares a width and
/// a height and decodes holds as many rows as it declares, each of runs that
/// are not empty and add up to the declared width; and what comes out is the
/// rows written out, a frame of the declared size.
pub proof fn lemma_decoded_frames_are_sound(frame: CompressedFrame)
    requires
        frame.width > 0,
        frame.height > 0,
        decode_frame(frame) is Ok,
    ensures
        frame.rows.len() == frame.height,
        forall|i: int|
            0 <= i < frame.rows.len() ==> counts_positive(#[trigger] frame.rows[i]) && expand(
                frame.rows[i],
            ).len() == frame.width,
        decode_frame(frame) == Ok::<Seq<Seq<Cell>>, CompressionError>(written_out(frame.rows)),
{
    lemma_decoded_rows_were_sound(frame, frame.rows.len());
    assert(frame.rows.take(frame.rows.len() as int) =~= frame.rows);
    assert forall|i: int| 0 <= i < frame.rows.len() implies counts_positive(
        #[trigger] frame.rows[i],
    ) && expand(frame.rows[i]).len() == frame.width by {
        assert(row_fault(frame, i) is None);
    }
}

/// A frame that keeps its structure decodes: to the empty frame where it
/// declares no width or no height, and to its rows written out otherwise.
pub proof fn lemma_well_formed_decodes(frame: CompressedFrame)
    requires
        frame.well_formed(),
    ensures
        decode_frame(frame) == Ok::<Seq<Seq<Cell>>, CompressionError>(
            if frame.width == 0 || frame.height == 0 {
                Seq::empty()
            } else {
                written_out(frame.rows)
            },
        ),
{
    if frame.width > 0 && frame.height > 0 {
        lemma_sound_rows_are_counted(frame);
    }
}

/// A frame that run-length encoding can take and decoding gives back: its
/// size fits the 32-bit fields, it is rectangular, and it is either empty or
/// has cells. (Rows without cells have no compressed form of their own:
/// decoding reads a frame of width 0 as the empty frame.)
pub open spec fn is_restorable(frame: Seq<Seq<Cell>>) -> bool {
    &&& frame.len() <= u32::MAX
    &&& is_rectangular(frame)
    &&& frame.len() > 0 ==> 0 < frame[0].len() <= u32::MAX
}

/// Decoding the first rows of an encoded rectangular frame gives those rows.
proof fn lemma_decode_rows_of_encoding(frame: Seq<Seq<Cell>>, n: nat)
    requires
        is_restorable(frame),
        n <= frame.len(),
    ensures
        decode_rows(encode_frame(frame), n) == Ok::<Seq<Seq<Cell>>, CompressionError>(
            frame.take(n as int),
        ),
    decreases n,
{
    if n == 0 {
        assert(frame.take(0) =~= Seq::empty());
    } else {
        lemma_decode_rows_of_encoding(frame, (n - 1) as nat);
        lemma_encode_round_trip(frame[n - 1]);
        assert(frame.take(n - 1).push(frame[n - 1]) =~= frame.take(n as int));
    }
}

/// Round trip: decoding the encoding of a frame gives the frame back. This
/// holds of the empty frame and of every rectangular frame with cells whose
/// size fits the 32-bit fields.
pub proof fn lemma_decode_inverts_encode(frame: Seq<Seq<Cell>>)
    requires
        is_restorable(frame),
    ensures
        decode_frame(encode_frame(frame)) == Ok::<Seq<Seq<Cell>>, CompressionError>(frame),
{
    lemma_decode_rows_of_encoding(frame, frame.len());
    assert(frame.take(frame.len() as int) =~= frame);
    if frame.len() == 0 {
        assert(frame =~= Seq::empty());
    }
}

/// Decompress a single row: write out each run, unless a run declares no
/// repetitions.
pub fn decompress_row(compressed_row: &[RleEntry]) -> (result: Result<
    Vec<AsciiPixel>,
    CompressionError,
>)
    ensures
        match result {
            Ok(row) => counts_positive(compressed_row.deep_view()) && row.deep_view() == expand(
                compressed_row.deep_view(),
            ),
            Err(fault) => !counts_positive(compressed_row.deep_view()) && fault
                == CompressionError::ZeroCountEntry,
        },
{
    let ghost runs = compressed_row.deep_view();
    let mut row: Vec<AsciiPixel> = Vec::new();
    let mut i: usize = 0;
    assert(row.deep_view() =~= Seq::empty());
    assert(runs.take(0) =~= Seq::empty());
    while i < compressed_row.len()
        invariant
            i <= compressed_row.len(),
            runs == compressed_row.deep_view(),
            counts_positive(runs.take(i as int)),
            row.deep_view() == expand(runs.take(i as int)),
        decreases compressed_row.len() - i,
    {
        let entry = compressed_row[i];
        if entry.count == 0 {
            assert(runs[i as int].count == 0);
            return Err(CompressionError::ZeroCountEntry);
        }
        let ghost done = row.deep_view();
        let mut k: u32 = 0;
        assert(done + repeat(entry.pixel@, 0) =~= done);
        while k < entry.count
            invariant
                k <= entry.count,
                row.deep_view() == done + repeat(entry.pixel@, k as nat),
            decreases entry.count - k,
        {
            let ghost before = row.deep_view();
            row.push(entry.pixel);
            k += 1;
            assert(row.deep_view() =~= before.push(entry.pixel@));
            assert(done + repeat(entry.pixel@, k as nat) =~= (done + repeat(
                entry.pixel@,
                (k - 1) as nat,
            )).push(entry.pixel@));
        }
        proof {
            assert(runs.take(i + 1) =~= runs.take(i as int).push(runs[i as int]));
            lemma_expand_push(runs.take(i as int), runs[i as int]);
            assert forall|j: int| 0 <= j < runs.take(i + 1).len() implies (#[trigger] runs.take(
                i + 1,
            )[j]).count >= 1 by {
                if j < i {
                    assert(runs.take(i as int)[j] == runs[j]);
                }
            }
        }
        i += 1;
    }
    assert(runs.take(compressed_row.len() as int) =~= runs);
    Ok(row)
}

/// Decompress a compressed grid back to the original ASCII grid.
///
/// A grid that declares no width or no height gives the empty grid. Of every
/// other the rows are written out in order, and the result is a grid of the
/// declared size, or the error of the first faulty row, or, where all rows
/// are sound, the error of their number.
pub fn decompress_grid(compressed: &CompressedGrid) -> (result: Result<
    Vec<Vec<AsciiPixel>>,
    CompressionError,
>)
    ensures
        match result {
            Ok(grid) => decode_frame(compressed@) == Ok::<Seq<Seq<Cell>>, CompressionError>(
                grid.deep_view(),
            ),
            Err(fault) => decode_frame(compressed@) == Err::<Seq<Seq<Cell>>, CompressionError>(
                fault,
            ),
        },
        result matches Ok(grid) ==> grid.len() == 0 || (grid.len() == compressed.height
            && forall|i: int| 0 <= i < grid.len() ==> (#[trigger] grid[i]).len()
            == compressed.width),
{
    let ghost frame = compressed@;
    let mut result: Vec<Vec<AsciiPixel>> = Vec::new();
    if compressed.width == 0 || compressed.height == 0 {
        assert(result.deep_view() =~= Seq::empty());
        return Ok(result);
    }
    let mut row_idx: usize = 0;
    assert(result.deep_view() =~= Seq::empty());
    while row_idx < compressed.rows.len()
        invariant
            row_idx <= compressed.rows.len(),
            frame == compressed@,
            compressed.width != 0 && compressed.height != 0,
            result.len() == row_idx,
            decode_rows(frame, row_idx as nat) == Ok::<Seq<Seq<Cell>>, CompressionError>(
                result.deep_view(),
            ),
        decreases compressed.rows.len() - row_idx,
    {
        let compressed_row = compressed.rows[row_idx].as_slice();
        assert(frame.rows[row_idx as int] =~= compressed_row.deep_view());
        let row = match decompress_row(compressed_row) {
            Ok(row) => row,
            Err(fault) => {
                proof {
                    lemma_decode_rows_fault_stays(
                        frame,
                        (row_idx + 1) as nat,
                        frame.rows.len(),
                    );
                }
                return Err(fault);
            },
        };
        // Verify row length matches expected width
        if row.len() != compressed.width as usize {
            proof {
                lemma_decode_rows_fault_stays(frame, (row_idx + 1) as nat, frame.rows.len());
            }
            return Err(
                CompressionError::RowLengthMismatch {
                    row_index: row_idx,
                    actual: row.len(),
                    expected: compressed.width,
                },
            );
        }
        let ghost done = result.deep_view();
        result.push(row);
        assert(result.deep_view() =~= done.push(row.deep_view()));
        row_idx += 1;
    }
    // Verify we have the right number of rows
    if result.len() != compressed.height as usize {
        return Err(
            CompressionError::RowCountMismatch {
                actual: result.len(),
                expected: compressed.height,
            },
        );
    }
    proof {
        lemma_decoded_frames_are_sound(frame);
        assert forall|i: int| 0 <= i < result.len() implies (#[trigger] result[i]).len()
            == compressed.width by {
            assert(result.deep_view()[i] == written_out(frame.rows)[i]);
            assert(result.deep_view()[i].len() == result[i].len());
        }
    }
    Ok(result)
}

/// Once a row is faulty, reading further rows does not change the fault.
pub proof fn lemma_decode_rows_fault_stays(frame: CompressedFrame, n: nat, m: nat)
    requires
        n <= m,
        decode_rows(frame, n) is Err,
    ensures
        decode_rows(frame, m) == decode_rows(frame, n),
    decreases m,
{
    if n < m {
        lemma_decode_rows_fault_stays(frame, n, (m - 1) as nat);
    }
}

/// Decompress a compressed grid back to the original ASCII grid:
/// `decompress_grid` under its other name.
pub fn decompress_ascii_grid(compressed: &CompressedGrid) -> (result: Result<
    Vec<Vec<AsciiPixel>>,
    CompressionError,
>)
    ensures
        match result {
            Ok(grid) => decode_frame(compressed@) == Ok::<Seq<Seq<Cell>>, CompressionError>(
                grid.deep_view(),
            ),
            Err(fault) => decode_frame(compressed@) == Err::<Seq<Seq<Cell>>, CompressionError>(
                fault,
            ),
        },
        result matches Ok(grid) ==> grid.len() == 0 || (grid.len() == compressed.height
            && forall|i: int| 0 <= i < grid.len() ==> (#[trigger] grid[i]).len()
            == compressed.width),
{
    decompress_grid(compressed)
}

} // verus!
