//! The byte format of a compressed frame.
//!
//! A frame is written as a version byte, the declared width and height, the
//! colour flag, the number of rows and then the rows; a row as its number of
//! runs and then the runs; a run as its count, the code of its character and
//! its colour. Numbers are little-endian, lengths take eight bytes, the other
//! numbers four. A flag is one byte, 0 or 1; a colour is the flag 0, or the
//! flag 1 and the three channels.
//!
//! Reading is the exact inverse of writing: every frame reads back from its
//! bytes, and bytes that read as a frame are the bytes of that frame.

mod laws;
mod reader;
mod writer;

pub use laws::{
    lemma_read_inverts_write, lemma_read_is_inverse_of_write, lemma_write_inverts_read,
};
pub use reader::frame_from_bytes;
pub use writer::frame_to_bytes;

use crate::compressor::rle::CompressedFrame;
use crate::compressor::runs::Run;
use crate::converter::ascii_pixel::Cell;
use vstd::prelude::*;

verus! {


/// The version marker that opens every encoded frame.
pub const FORMAT_VERSION: u8 = 1;

/// Why bytes do not read as a compressed frame.
#[derive(Debug, Clone, Copy, PartialEq, Eq)]
pub enum FormatFault {
    /// The bytes end before the frame does.
    Truncated,
    /// The first byte is not the version marker of this format.
    UnsupportedVersion,
    /// A flag byte is neither 0 nor 1.
    InvalidFlag,
    /// A character code is not a Unicode scalar value.
    InvalidChar,
    /// Bytes follow the end of the frame.
    TrailingBytes,
}

/// A value read from the front of some bytes, with the bytes that follow it.
pub type Parsed<T> = Result<(T, Seq<u8>), FormatFault>;

/// The four bytes of a 32-bit number, lowest first.
#[verifier::opaque]
pub open spec fn u32_le(x: u32) -> Seq<u8> {
    seq![
        (x % 256) as u8,
        (x / 256 % 256) as u8,
        (x / 256 / 256 % 256) as u8,
        (x / 256 / 256 / 256) as u8,
    ]
}

/// The 32-bit number that four bytes spell, lowest first.
#[verifier::opaque]
pub open spec fn u32_of_le(b0: u8, b1: u8, b2: u8, b3: u8) -> u32 {
    (b0 + 256 * (b1 + 256 * (b2 + 256 * b3))) as u32
}

/// Reads a 32-bit number: the number that the first four bytes spell.
pub open spec fn read_u32(bytes: Seq<u8>) -> Parsed<u32> {
    if bytes.len() < 4 {
        Err(FormatFault::Truncated)
    } else {
        Ok((u32_of_le(bytes[0], bytes[1], bytes[2], bytes[3]), bytes.skip(4)))
    }
}

/// The low 32 bits of a 64-bit number.
#[verifier::opaque]
pub open spec fn low_half(x: u64) -> u32 {
    (x % 0x1_0000_0000) as u32
}

/// The high 32 bits of a 64-bit number.
#[verifier::opaque]
pub open spec fn high_half(x: u64) -> u32 {
    (x / 0x1_0000_0000) as u32
}

/// The 64-bit number with the given halves.
#[verifier::opaque]
pub open spec fn join_halves(low: u32, high: u32) -> u64 {
    (low + 0x1_0000_0000 * high) as u64
}

/// The eight bytes of a 64-bit number: its low half, then its high half.
pub open spec fn u64_le(x: u64) -> Seq<u8> {
    u32_le(low_half(x)) + u32_le(high_half(x))
}

/// Reads a 64-bit number: its low half, then its high half.
pub open spec fn read_u64(bytes: Seq<u8>) -> Parsed<u64> {
    match read_u32(bytes) {
        Err(fault) => Err(fault),
        Ok((low, rest)) => match read_u32(rest) {
            Err(fault) => Err(fault),
            Ok((high, rest)) => Ok((join_halves(low, high), rest)),
        },
    }
}

/// The byte of a flag.
pub open spec fn flag_byte(flag: bool) -> u8 {
    if flag {
        1
    } else {
        0
    }
}

/// Reads a flag: the byte 0 or 1.
pub open spec fn read_flag(bytes: Seq<u8>) -> Parsed<bool> {
    if bytes.len() < 1 {
        Err(FormatFault::Truncated)
    } else if bytes[0] == 0 {
        Ok((false, bytes.skip(1)))
    } else if bytes[0] == 1 {
        Ok((true, bytes.skip(1)))
    } else {
        Err(FormatFault::InvalidFlag)
    }
}

/// The bytes of a colour: the flag that says whether there is one, then its
/// three channels.
pub open spec fn color_bytes(color: Option<(u8, u8, u8)>) -> Seq<u8> {
    match color {
        None => seq![flag_byte(false)],
        Some((r, g, b)) => seq![flag_byte(true), r, g, b],
    }
}

/// Reads a colour: its flag and, where the flag is set, three channels.
pub open spec fn read_color(bytes: Seq<u8>) -> Parsed<Option<(u8, u8, u8)>> {
    match read_flag(bytes) {
        Err(fault) => Err(fault),
        Ok((false, rest)) => Ok((None, rest)),
        Ok((true, rest)) => if rest.len() < 3 {
            Err(FormatFault::Truncated)
        } else {
            Ok((Some((rest[0], rest[1], rest[2])), rest.skip(3)))
        },
    }
}

/// The codes that stand for a character: the Unicode scalar values.
pub open spec fn is_scalar_value(code: u32) -> bool {
    code <= 0xD7FF || 0xE000 <= code <= 0x10FFFF
}

/// The bytes of a run: its count, the code of its character, its colour.
pub open spec fn run_bytes(run: Run<Cell>) -> Seq<u8> {
    u32_le(run.count) + u32_le(run.item.ch as u32) + color_bytes(run.item.color)
}

/// Reads a run: its count, the code of its character, which must be a
/// Unicode scalar value, and its colour.
pub open spec fn read_run(bytes: Seq<u8>) -> Parsed<Run<Cell>> {
    match read_u32(bytes) {
        Err(fault) => Err(fault),
        Ok((count, rest)) => match read_u32(rest) {
            Err(fault) => Err(fault),
            Ok((code, rest)) => if !is_scalar_value(code) {
                Err(FormatFault::InvalidChar)
            } else {
                match read_color(rest) {
                    Err(fault) => Err(fault),
                    Ok((color, rest)) => Ok(
                        (Run { count, item: Cell { ch: code as char, color } }, rest),
                    ),
                }
            },
        },
    }
}

/// The bytes of some runs, one run after the other.
pub open spec fn runs_bytes(runs: Seq<Run<Cell>>) -> Seq<u8>
    decreases runs.len(),
{
    if runs.len() == 0 {
        Seq::empty()
    } else {
        runs_bytes(runs.drop_last()) + run_bytes(runs.last())
    }
}

/// Reads `n` runs, one after the other; the first fault ends the reading.
pub open spec fn read_runs(bytes: Seq<u8>, n: nat) -> Parsed<Seq<Run<Cell>>>
    decreases n,
{
    if n == 0 {
        Ok((Seq::empty(), bytes))
    } else {
        match read_runs(bytes, (n - 1) as nat) {
            Err(fault) => Err(fault),
            Ok((runs, rest)) => match read_run(rest) {
                Err(fault) => Err(fault),
                Ok((run, rest)) => Ok((runs.push(run), rest)),
            },
        }
    }
}

/// The bytes of a row: the number of its runs, then the runs.
pub open spec fn row_bytes(row: Seq<Run<Cell>>) -> Seq<u8> {
    u64_le(row.len() as u64) + runs_bytes(row)
}

/// Reads a row: the number of its runs, then as many runs.
pub open spec fn read_row(bytes: Seq<u8>) -> Parsed<Seq<Run<Cell>>> {
    match read_u64(bytes) {
        Err(fault) => Err(fault),
        Ok((n, rest)) => read_runs(rest, n as nat),
    }
}

/// The bytes of some rows, one row after the other.
pub open spec fn rows_bytes(rows: Seq<Seq<Run<Cell>>>) -> Seq<u8>
    decreases rows.len(),
{
    if rows.len() == 0 {
        Seq::empty()
    } else {
        rows_bytes(rows.drop_last()) + row_bytes(rows.last())
    }
}

/// Reads `n` rows, one after the other; the first fault ends the reading.
pub open spec fn read_rows(bytes: Seq<u8>, n: nat) -> Parsed<Seq<Seq<Run<Cell>>>>
    decreases n,
{
    if n == 0 {
        Ok((Seq::empty(), bytes))
    } else {
        match read_rows(bytes, (n - 1) as nat) {
            Err(fault) => Err(fault),
            Ok((rows, rest)) => match read_row(rest) {
                Err(fault) => Err(fault),
                Ok((row, rest)) => Ok((rows.push(row), rest)),
            },
        }
    }
}

/// The bytes of a compressed frame after the version byte: the declared
/// width and height, the colour flag, the number of rows, the rows.
pub open spec fn frame_body_bytes(frame: CompressedFrame) -> Seq<u8> {
    u32_le(frame.width) + (u32_le(frame.height) + (seq![flag_byte(frame.has_color)] + (u64_le(
        frame.rows.len() as u64,
    ) + rows_bytes(frame.rows))))
}

/// The bytes of a compressed frame.
pub open spec fn frame_bytes(frame: CompressedFrame) -> Seq<u8> {
    seq![FORMAT_VERSION] + frame_body_bytes(frame)
}

/// The frame after the version byte: the declared size, the flag, the rows,
/// and nothing behind them.
pub open spec fn read_frame_body(bytes: Seq<u8>) -> Result<CompressedFrame, FormatFault> {
    match read_u32(bytes) {
        Err(fault) => Err(fault),
        Ok((width, rest)) => match read_u32(rest) {
            Err(fault) => Err(fault),
            Ok((height, rest)) => match read_flag(rest) {
                Err(fault) => Err(fault),
                Ok((has_color, rest)) => match read_u64(rest) {
                    Err(fault) => Err(fault),
                    Ok((n, rest)) => match read_rows(rest, n as nat) {
                        Err(fault) => Err(fault),
                        Ok((rows, rest)) => if rest.len() != 0 {
                            Err(FormatFault::TrailingBytes)
                        } else {
                            Ok(CompressedFrame { width, height, has_color, rows })
                        },
                    },
                },
            },
        },
    }
}

/// The frame that some bytes spell, or the first fault met in reading them
/// from the front.
pub open spec fn read_frame(bytes: Seq<u8>) -> Result<CompressedFrame, FormatFault> {
    if bytes.len() < 1 {
        Err(FormatFault::Truncated)
    } else if bytes[0] != FORMAT_VERSION {
        Err(FormatFault::UnsupportedVersion)
    } else {
        read_frame_body(bytes.skip(1))
    }
}

/// The frames that memory can hold: the number of rows, and of runs in each
/// row, fits the eight bytes of a length. Every `CompressedGrid` is one.
pub open spec fn fits_lengths(frame: CompressedFrame) -> bool {
    &&& frame.rows.len() <= u64::MAX
    &&& forall|i: int| 0 <= i < frame.rows.len() ==> (#[trigger] frame.rows[i]).len() <= u64::MAX
}

} // verus!
