//! Reading a compressed grid from the byte format.

use crate::compressor::rle::{CompressedFrame, CompressedGrid, RleEntry};
use crate::compressor::runs::Run;
use crate::compressor::wire::laws::{
    lemma_char_of_code, lemma_read_rows_fault_stays, lemma_read_runs_fault_stays,
};
use crate::compressor::wire::{
    is_scalar_value, join_halves, read_flag, read_frame, read_row, read_rows, read_run,
    read_runs, read_u32, read_u64, u32_of_le, FormatFault, FORMAT_VERSION,
};
use crate::converter::ascii_pixel::{AsciiPixel, Cell};
use vstd::prelude::*;

verus! {

/// `char::from_u32` of std: a character comes back exactly for the Unicode
/// scalar values, and it is the character with that code.
pub assume_specification[ char::from_u32 ](code: u32) -> (c: Option<char>)
    ensures
        c is Some <==> is_scalar_value(code),
        c matches Some(ch) ==> ch as u32 == code,
;

/// Reads a 32-bit number at `pos`, and says where the reading ended.
fn take_u32(input: &[u8], pos: usize) -> (result: Result<(u32, usize), FormatFault>)
    requires
        pos <= input.len(),
    ensures
        match result {
            Ok((x, next)) => pos <= next <= input.len() && read_u32(input@.skip(pos as int))
                == Ok::<(u32, Seq<u8>), FormatFault>((x, input@.skip(next as int))),
            Err(fault) => read_u32(input@.skip(pos as int)) == Err::<
                (u32, Seq<u8>),
                FormatFault,
            >(fault),
        },
{
    if input.len() - pos < 4 {
        return Err(FormatFault::Truncated);
    }
    let b0 = input[pos] as u32;
    let b1 = input[pos + 1] as u32;
    let b2 = input[pos + 2] as u32;
    let b3 = input[pos + 3] as u32;
    let x = b0 + 256 * (b1 + 256 * (b2 + 256 * b3));
    proof {
        reveal(u32_of_le);
        assert(input@.skip(pos as int).skip(4) =~= input@.skip(pos + 4));
    }
    Ok((x, pos + 4))
}

/// Reads a 64-bit number at `pos`, and says where the reading ended.
fn take_u64(input: &[u8], pos: usize) -> (result: Result<(u64, usize), FormatFault>)
    requires
        pos <= input.len(),
    ensures
        match result {
            Ok((x, next)) => pos <= next <= input.len() && read_u64(input@.skip(pos as int))
                == Ok::<(u64, Seq<u8>), FormatFault>((x, input@.skip(next as int))),
            Err(fault) => read_u64(input@.skip(pos as int)) == Err::<
                (u64, Seq<u8>),
                FormatFault,
            >(fault),
        },
{
    let (low, middle) = match take_u32(input, pos) {
        Ok(read) => read,
        Err(fault) => {
            return Err(fault);
        },
    };
    let (high, next) = match take_u32(input, middle) {
        Ok(read) => read,
        Err(fault) => {
            return Err(fault);
        },
    };
    proof {
        reveal(join_halves);
    }
    Ok((low as u64 + 0x1_0000_0000 * (high as u64), next))
}

/// Reads a flag at `pos`, and says where the reading ended.
fn take_flag(input: &[u8], pos: usize) -> (result: Result<(bool, usize), FormatFault>)
    requires
        pos <= input.len(),
    ensures
        match result {
            Ok((flag, next)) => pos <= next <= input.len() && read_flag(input@.skip(pos as int))
                == Ok::<(bool, Seq<u8>), FormatFault>((flag, input@.skip(next as int))),
            Err(fault) => read_flag(input@.skip(pos as int)) == Err::<
                (bool, Seq<u8>),
                FormatFault,
            >(fault),
        },
{
    if input.len() - pos < 1 {
        return Err(FormatFault::Truncated);
    }
    let byte = input[pos];
    assert(input@.skip(pos as int).skip(1) =~= input@.skip(pos + 1));
    if byte == 0 {
        Ok((false, pos + 1))
    } else if byte == 1 {
        Ok((true, pos + 1))
    } else {
        Err(FormatFault::InvalidFlag)
    }
}

/// Reads a run at `pos`, and says where the reading ended.
fn take_run(input: &[u8], pos: usize) -> (result: Result<(RleEntry, usize), FormatFault>)
    requires
        pos <= input.len(),
    ensures
        match result {
            Ok((entry, next)) => pos <= next <= input.len() && read_run(input@.skip(pos as int))
                == Ok::<(Run<Cell>, Seq<u8>), FormatFault>((entry@, input@.skip(next as int))),
            Err(fault) => read_run(input@.skip(pos as int)) == Err::<
                (Run<Cell>, Seq<u8>),
                FormatFault,
            >(fault),
        },
{
    let (count, after_count) = match take_u32(input, pos) {
        Ok(read) => read,
        Err(fault) => {
            return Err(fault);
        },
    };
    let (code, after_code) = match take_u32(input, after_count) {
        Ok(read) => read,
        Err(fault) => {
            return Err(fault);
        },
    };
    let ch = match char::from_u32(code) {
        Some(ch) => ch,
        None => {
            return Err(FormatFault::InvalidChar);
        },
    };
    proof {
        lemma_char_of_code(ch, code);
    }
    let (colored, after_flag) = match take_flag(input, after_code) {
        Ok(read) => read,
        Err(fault) => {
            return Err(fault);
        },
    };
    if !colored {
        return Ok((RleEntry { count, pixel: AsciiPixel { ch, rgb: None } }, after_flag));
    }
    if input.len() - after_flag < 3 {
        return Err(FormatFault::Truncated);
    }
    let channels = [input[after_flag], input[after_flag + 1], input[after_flag + 2]];
    assert(input@.skip(after_flag as int).skip(3) =~= input@.skip(after_flag + 3));
    Ok((RleEntry { count, pixel: AsciiPixel { ch, rgb: Some(channels) } }, after_flag + 3))
}

/// Reads `n` runs at `pos`, and says where the reading ended.
fn take_runs(input: &[u8], pos: usize, n: u64) -> (result: Result<
    (Vec<RleEntry>, usize),
    FormatFault,
>)
    requires
        pos <= input.len(),
    ensures
        match result {
            Ok((row, next)) => pos <= next <= input.len() && read_runs(
                input@.skip(pos as int),
                n as nat,
            ) == Ok::<(Seq<Run<Cell>>, Seq<u8>), FormatFault>(
                (row.deep_view(), input@.skip(next as int)),
            ),
            Err(fault) => read_runs(input@.skip(pos as int), n as nat) == Err::<
                (Seq<Run<Cell>>, Seq<u8>),
                FormatFault,
            >(fault),
        },
{
    let ghost bytes = input@.skip(pos as int);
    let mut row: Vec<RleEntry> = Vec::new();
    let mut next = pos;
    let mut i: u64 = 0;
    assert(row.deep_view() =~= Seq::empty());
    while i < n
        invariant
            i <= n,
            pos <= next <= input.len(),
            bytes == input@.skip(pos as int),
            read_runs(bytes, i as nat) == Ok::<(Seq<Run<Cell>>, Seq<u8>), FormatFault>(
                (row.deep_view(), input@.skip(next as int)),
            ),
        decreases n - i,
    {
        let (entry, after) = match take_run(input, next) {
            Ok(read) => read,
            Err(fault) => {
                proof {
                    assert(read_runs(bytes, (i + 1) as nat) == Err::<
                        (Seq<Run<Cell>>, Seq<u8>),
                        FormatFault,
                    >(fault));
                    lemma_read_runs_fault_stays(bytes, (i + 1) as nat, n as nat);
                }
                return Err(fault);
            },
        };
        let ghost before = row.deep_view();
        row.push(entry);
        assert(row.deep_view() =~= before.push(entry@));
        next = after;
        i += 1;
    }
    Ok((row, next))
}

/// Reads a row at `pos`, and says where the reading ended.
fn take_row(input: &[u8], pos: usize) -> (result: Result<(Vec<RleEntry>, usize), FormatFault>)
    requires
        pos <= input.len(),
    ensures
        match result {
            Ok((row, next)) => pos <= next <= input.len() && read_row(input@.skip(pos as int))
                == Ok::<(Seq<Run<Cell>>, Seq<u8>), FormatFault>(
                (row.deep_view(), input@.skip(next as int)),
            ),
            Err(fault) => read_row(input@.skip(pos as int)) == Err::<
                (Seq<Run<Cell>>, Seq<u8>),
                FormatFault,
            >(fault),
        },
{
    let (n, start) = match take_u64(input, pos) {
        Ok(read) => read,
        Err(fault) => {
            return Err(fault);
        },
    };
    take_runs(input, start, n)
}

/// Reads `n` rows at `pos`, and says where the reading ended.
fn take_rows(input: &[u8], pos: usize, n: u64) -> (result: Result<
    (Vec<Vec<RleEntry>>, usize),
    FormatFault,
>)
    requires
        pos <= input.len(),
    ensures
        match result {
            Ok((rows, next)) => pos <= next <= input.len() && read_rows(
                input@.skip(pos as int),
                n as nat,
            ) == Ok::<(Seq<Seq<Run<Cell>>>, Seq<u8>), FormatFault>(
                (rows.deep_view(), input@.skip(next as int)),
            ),
            Err(fault) => read_rows(input@.skip(pos as int), n as nat) == Err::<
                (Seq<Seq<Run<Cell>>>, Seq<u8>),
                FormatFault,
            >(fault),
        },
{
    let ghost bytes = input@.skip(pos as int);
    let mut rows: Vec<Vec<RleEntry>> = Vec::new();
    let mut next = pos;
    let mut i: u64 = 0;
    assert(rows.deep_view() =~= Seq::empty());
    while i < n
        invariant
            i <= n,
            pos <= next <= input.len(),
            bytes == input@.skip(pos as int),
            read_rows(bytes, i as nat) == Ok::<(Seq<Seq<Run<Cell>>>, Seq<u8>), FormatFault>(
                (rows.deep_view(), input@.skip(next as int)),
            ),
        decreases n - i,
    {
        let (row, after) = match take_row(input, next) {
            Ok(read) => read,
            Err(fault) => {
                proof {
                    assert(read_rows(bytes, (i + 1) as nat) == Err::<
                        (Seq<Seq<Run<Cell>>>, Seq<u8>),
                        FormatFault,
                    >(fault));
                    lemma_read_rows_fault_stays(bytes, (i + 1) as nat, n as nat);
                }
                return Err(fault);
            },
        };
        let ghost before = rows.deep_view();
        rows.push(row);
        assert(rows.deep_view() =~= before.push(row.deep_view()));
        next = after;
        i += 1;
    }
    Ok((rows, next))
}

/// Reads a compressed grid from the byte format: the grid that the bytes
/// spell, or the first fault met in reading them.
pub fn frame_from_bytes(input: &[u8]) -> (result: Result<CompressedGrid, FormatFault>)
    ensures
        match result {
            Ok(grid) => read_frame(input@) == Ok::<CompressedFrame, FormatFault>(grid@),
            Err(fault) => read_frame(input@) == Err::<CompressedFrame, FormatFault>(fault),
        },
{
    if input.len() < 1 {
        return Err(FormatFault::Truncated);
    }
    if input[0] != FORMAT_VERSION {
        return Err(FormatFault::UnsupportedVersion);
    }
    let (width, after_width) = match take_u32(input, 1) {
        Ok(read) => read,
        Err(fault) => {
            return Err(fault);
        },
    };
    let (height, after_height) = match take_u32(input, after_width) {
        Ok(read) => read,
        Err(fault) => {
            return Err(fault);
        },
    };
    let (has_color, after_flag) = match take_flag(input, after_height) {
        Ok(read) => read,
        Err(fault) => {
            return Err(fault);
        },
    };
    let (n, after_count) = match take_u64(input, after_flag) {
        Ok(read) => read,
        Err(fault) => {
            return Err(fault);
        },
    };
    let (rows, end) = match take_rows(input, after_count, n) {
        Ok(read) => read,
        Err(fault) => {
            return Err(fault);
        },
    };
    if end != input.len() {
        return Err(FormatFault::TrailingBytes);
    }
    Ok(CompressedGrid { width, height, has_color, rows })
}

} // verus!
