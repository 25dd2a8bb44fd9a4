//! Writing a compressed grid in the byte format.

use crate::compressor::rle::{CompressedGrid, RleEntry};
use crate::compressor::wire::laws::lemma_concat_assoc;
use crate::compressor::wire::{
    fits_lengths, flag_byte, frame_bytes, high_half, low_half, row_bytes, rows_bytes, run_bytes,
    runs_bytes, u32_le, u64_le, FORMAT_VERSION,
};
use vstd::prelude::*;

verus! {

/// Appends the four bytes of a 32-bit number.
fn put_u32(out: &mut Vec<u8>, x: u32)
    ensures
        final(out)@ == old(out)@ + u32_le(x),
{
    out.push((x % 256) as u8);
    out.push((x / 256 % 256) as u8);
    out.push((x / 256 / 256 % 256) as u8);
    out.push((x / 256 / 256 / 256) as u8);
    proof {
        reveal(u32_le);
        assert(out@ =~= old(out)@ + u32_le(x));
    }
}

/// Appends the eight bytes of a 64-bit number.
fn put_u64(out: &mut Vec<u8>, x: u64)
    ensures
        final(out)@ == old(out)@ + u64_le(x),
{
    put_u32(out, (x % 0x1_0000_0000) as u32);
    put_u32(out, (x / 0x1_0000_0000) as u32);
    proof {
        reveal(low_half);
        reveal(high_half);
        lemma_concat_assoc(old(out)@, u32_le(low_half(x)), u32_le(high_half(x)));
    }
}

/// Appends the byte of a flag.
fn put_flag(out: &mut Vec<u8>, flag: bool)
    ensures
        final(out)@ == old(out)@ + seq![flag_byte(flag)],
{
    if flag {
        out.push(1);
    } else {
        out.push(0);
    }
    assert(out@ =~= old(out)@ + seq![flag_byte(flag)]);
}

/// Appends the bytes of a run.
fn put_run(out: &mut Vec<u8>, entry: &RleEntry)
    ensures
        final(out)@ == old(out)@ + run_bytes(entry@),
{
    put_u32(out, entry.count);
    put_u32(out, entry.pixel.ch as u32);
    match entry.pixel.rgb {
        None => {
            put_flag(out, false);
        },
        Some(channels) => {
            put_flag(out, true);
            out.push(channels[0]);
            out.push(channels[1]);
            out.push(channels[2]);
        },
    }
    assert(out@ =~= old(out)@ + run_bytes(entry@));
}

/// Appends the bytes of a row.
fn put_row(out: &mut Vec<u8>, row: &[RleEntry])
    ensures
        final(out)@ == old(out)@ + row_bytes(row.deep_view()),
{
    let ghost runs = row.deep_view();
    put_u64(out, row.len() as u64);
    let ghost start = out@;
    let mut i: usize = 0;
    assert(runs.take(0) =~= Seq::empty());
    assert(out@ =~= start + runs_bytes(runs.take(0)));
    while i < row.len()
        invariant
            i <= row.len(),
            runs == row.deep_view(),
            out@ == start + runs_bytes(runs.take(i as int)),
        decreases row.len() - i,
    {
        let ghost before = out@;
        put_run(out, &row[i]);
        proof {
            assert(runs.take(i + 1).drop_last() =~= runs.take(i as int));
            assert(runs.take(i + 1).last() == row[i as int]@);
            assert(out@ =~= start + runs_bytes(runs.take(i + 1)));
        }
        i += 1;
    }
    assert(runs.take(row.len() as int) =~= runs);
    assert(out@ =~= old(out)@ + row_bytes(runs));
}

/// Writes a compressed grid in the byte format.
pub fn frame_to_bytes(grid: &CompressedGrid) -> (bytes: Vec<u8>)
    ensures
        bytes@ == frame_bytes(grid@),
        fits_lengths(grid@),
{
    let ghost rows = grid@.rows;
    let mut out: Vec<u8> = Vec::new();
    out.push(FORMAT_VERSION);
    put_u32(&mut out, grid.width);
    put_u32(&mut out, grid.height);
    put_flag(&mut out, grid.has_color);
    put_u64(&mut out, grid.rows.len() as u64);
    let ghost start = out@;
    let mut i: usize = 0;
    assert(rows.take(0) =~= Seq::empty());
    assert(out@ =~= start + rows_bytes(rows.take(0)));
    while i < grid.rows.len()
        invariant
            i <= grid.rows.len(),
            rows == grid@.rows,
            out@ == start + rows_bytes(rows.take(i as int)),
        decreases grid.rows.len() - i,
    {
        let row = grid.rows[i].as_slice();
        put_row(&mut out, row);
        proof {
            assert(rows[i as int] =~= row.deep_view());
            assert(rows.take(i + 1).drop_last() =~= rows.take(i as int));
            assert(rows.take(i + 1).last() == rows[i as int]);
            assert(out@ =~= start + rows_bytes(rows.take(i + 1)));
        }
        i += 1;
    }
    proof {
        assert(rows.take(grid.rows.len() as int) =~= rows);
        assert(out@ =~= frame_bytes(grid@));
        assert forall|k: int| 0 <= k < rows.len() implies (#[trigger] rows[k]).len()
            <= u64::MAX by {
            assert(rows[k].len() == grid.rows[k].len());
        }
    }
    out
}

} // verus!
