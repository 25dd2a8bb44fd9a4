//! Why reading inverts writing, piece by piece.

use crate::compressor::rle::CompressedFrame;
use crate::compressor::runs::Run;
use crate::compressor::wire::{
    color_bytes, fits_lengths, flag_byte, frame_body_bytes, frame_bytes, high_half,
    is_scalar_value, join_halves, low_half, read_color, read_flag, read_frame, read_frame_body,
    read_row, read_rows, read_run, read_runs, read_u32, read_u64, row_bytes, rows_bytes,
    run_bytes, runs_bytes, u32_le, u32_of_le, u64_le, FormatFault, FORMAT_VERSION,
};
use crate::converter::ascii_pixel::Cell;
use vstd::prelude::*;

verus! {

/// A character is found again from its code.
pub(super) proof fn lemma_char_of_code(ch: char, code: u32)
    requires
        ch as u32 == code,
    ensures
        code as char == ch,
        is_scalar_value(code),
{
}

/// Joining sequences does not depend on where the brackets stand.
pub(super) proof fn lemma_concat_assoc<T>(a: Seq<T>, b: Seq<T>, c: Seq<T>)
    ensures
        (a + b) + c == a + (b + c),
{
    assert((a + b) + c =~= a + (b + c));
}

/// Four bytes spell the number whose bytes they are, and a number's bytes
/// spell it.
proof fn lemma_u32_le(x: u32, b0: u8, b1: u8, b2: u8, b3: u8)
    ensures
        u32_le(x).len() == 4,
        u32_of_le(u32_le(x)[0], u32_le(x)[1], u32_le(x)[2], u32_le(x)[3]) == x,
        u32_le(u32_of_le(b0, b1, b2, b3)) == seq![b0, b1, b2, b3],
{
    reveal(u32_le);
    reveal(u32_of_le);
    let y = u32_of_le(b0, b1, b2, b3);
    assert(y == b0 + 256 * (b1 + 256 * (b2 + 256 * b3)));
    assert(y % 256 == b0);
    assert(y / 256 == b1 + 256 * (b2 + 256 * b3));
    assert(y / 256 / 256 == b2 + 256 * b3);
    assert(u32_le(y) =~= seq![b0, b1, b2, b3]);
}

/// A 64-bit number is the join of its halves, and the halves of a join are
/// what was joined.
proof fn lemma_halves(x: u64, low: u32, high: u32)
    ensures
        join_halves(low_half(x), high_half(x)) == x,
        low_half(join_halves(low, high)) == low,
        high_half(join_halves(low, high)) == high,
{
    reveal(low_half);
    reveal(high_half);
    reveal(join_halves);
}

/// The bytes of a 32-bit number, with anything behind them, read as the
/// number and leave what was behind.
proof fn lemma_read_u32(x: u32, tail: Seq<u8>)
    ensures
        read_u32(u32_le(x) + tail) == Ok::<(u32, Seq<u8>), FormatFault>((x, tail)),
{
    let bytes = u32_le(x) + tail;
    lemma_u32_le(x, 0, 0, 0, 0);
    assert(bytes.skip(4) =~= tail);
    assert(bytes[0] == u32_le(x)[0] && bytes[1] == u32_le(x)[1] && bytes[2] == u32_le(x)[2]
        && bytes[3] == u32_le(x)[3]);
}

/// Bytes that read as a 32-bit number begin with the bytes of that number.
proof fn lemma_read_u32_sound(bytes: Seq<u8>)
    ensures
        read_u32(bytes) matches Ok((x, rest)) ==> bytes == u32_le(x) + rest,
{
    if let Ok((x, rest)) = read_u32(bytes) {
        lemma_u32_le(0, bytes[0], bytes[1], bytes[2], bytes[3]);
        assert(bytes =~= seq![bytes[0], bytes[1], bytes[2], bytes[3]] + rest);
    }
}

/// The bytes of a 64-bit number, with anything behind them, read as the
/// number and leave what was behind.
proof fn lemma_read_u64(x: u64, tail: Seq<u8>)
    ensures
        read_u64(u64_le(x) + tail) == Ok::<(u64, Seq<u8>), FormatFault>((x, tail)),
{
    let low = low_half(x);
    let high = high_half(x);
    lemma_halves(x, 0, 0);
    lemma_concat_assoc(u32_le(low), u32_le(high), tail);
    lemma_read_u32(low, u32_le(high) + tail);
    lemma_read_u32(high, tail);
}

/// Bytes that read as a 64-bit number begin with the bytes of that number.
proof fn lemma_read_u64_sound(bytes: Seq<u8>)
    ensures
        read_u64(bytes) matches Ok((x, rest)) ==> bytes == u64_le(x) + rest,
{
    if let Ok((x, rest)) = read_u64(bytes) {
        lemma_read_u32_sound(bytes);
        let (low, middle) = read_u32(bytes)->Ok_0;
        lemma_read_u32_sound(middle);
        let (high, _) = read_u32(middle)->Ok_0;
        lemma_halves(0, low, high);
        lemma_concat_assoc(u32_le(low), u32_le(high), rest);
    }
}

/// The byte of a flag, with anything behind it, reads as the flag and leaves
/// what was behind.
proof fn lemma_read_flag(flag: bool, tail: Seq<u8>)
    ensures
        read_flag(seq![flag_byte(flag)] + tail) == Ok::<(bool, Seq<u8>), FormatFault>(
            (flag, tail),
        ),
{
    assert((seq![flag_byte(flag)] + tail).skip(1) =~= tail);
}

/// Bytes that read as a flag begin with the byte of that flag.
proof fn lemma_read_flag_sound(bytes: Seq<u8>)
    ensures
        read_flag(bytes) matches Ok((flag, rest)) ==> bytes == seq![flag_byte(flag)] + rest,
{
    if let Ok((flag, rest)) = read_flag(bytes) {
        assert(bytes =~= seq![flag_byte(flag)] + rest);
    }
}

/// The bytes of a colour, with anything behind them, read as the colour and
/// leave what was behind.
proof fn lemma_read_color(color: Option<(u8, u8, u8)>, tail: Seq<u8>)
    ensures
        read_color(color_bytes(color) + tail) == Ok::<(Option<(u8, u8, u8)>, Seq<u8>), FormatFault>(
            (color, tail),
        ),
{
    let bytes = color_bytes(color) + tail;
    match color {
        None => {
            assert(bytes.skip(1) =~= tail);
        },
        Some((r, g, b)) => {
            assert(bytes.skip(1).skip(3) =~= tail);
            assert(bytes.skip(1)[0] == r && bytes.skip(1)[1] == g && bytes.skip(1)[2] == b);
        },
    }
}

/// Bytes that read as a colour begin with the bytes of that colour.
proof fn lemma_read_color_sound(bytes: Seq<u8>)
    ensures
        read_color(bytes) matches Ok((color, rest)) ==> bytes == color_bytes(color) + rest,
{
    if let Ok((color, rest)) = read_color(bytes) {
        assert(bytes =~= color_bytes(color) + rest);
    }
}

/// The bytes of a run, with anything behind them, read as the run and leave
/// what was behind.
proof fn lemma_read_run(run: Run<Cell>, tail: Seq<u8>)
    ensures
        read_run(run_bytes(run) + tail) == Ok::<(Run<Cell>, Seq<u8>), FormatFault>((run, tail)),
{
    let code = run.item.ch as u32;
    let after_code = color_bytes(run.item.color) + tail;
    let after_count = u32_le(code) + after_code;
    lemma_concat_assoc(u32_le(run.count), u32_le(code), color_bytes(run.item.color));
    lemma_concat_assoc(u32_le(run.count), u32_le(code) + color_bytes(run.item.color), tail);
    lemma_concat_assoc(u32_le(code), color_bytes(run.item.color), tail);
    lemma_read_u32(run.count, after_count);
    lemma_read_u32(code, after_code);
    lemma_read_color(run.item.color, tail);
}

/// Bytes that read as a run begin with the bytes of that run.
proof fn lemma_read_run_sound(bytes: Seq<u8>)
    ensures
        read_run(bytes) matches Ok((run, rest)) ==> bytes == run_bytes(run) + rest,
{
    if let Ok((run, rest)) = read_run(bytes) {
        lemma_read_u32_sound(bytes);
        let (count, after_count) = read_u32(bytes)->Ok_0;
        lemma_read_u32_sound(after_count);
        let (code, after_code) = read_u32(after_count)->Ok_0;
        lemma_read_color_sound(after_code);
        let color = color_bytes(run.item.color);
        assert(run.item.ch as u32 == code);
        lemma_concat_assoc(u32_le(code), color, rest);
        lemma_concat_assoc(u32_le(count), u32_le(code) + color, rest);
        lemma_concat_assoc(u32_le(count), u32_le(code), color);
    }
}

/// The bytes of some runs, with anything behind them, read as those runs and
/// leave what was behind.
proof fn lemma_read_runs(runs: Seq<Run<Cell>>, tail: Seq<u8>)
    ensures
        read_runs(runs_bytes(runs) + tail, runs.len()) == Ok::<
            (Seq<Run<Cell>>, Seq<u8>),
            FormatFault,
        >((runs, tail)),
    decreases runs.len(),
{
    if runs.len() == 0 {
        assert(runs_bytes(runs) + tail =~= tail);
        assert(runs =~= Seq::empty());
    } else {
        let last_and_tail = run_bytes(runs.last()) + tail;
        assert(runs_bytes(runs) + tail =~= runs_bytes(runs.drop_last()) + last_and_tail);
        lemma_read_runs(runs.drop_last(), last_and_tail);
        lemma_read_run(runs.last(), tail);
        assert(runs.drop_last().push(runs.last()) =~= runs);
    }
}

/// Bytes that read as `n` runs begin with the bytes of those runs, and there
/// are `n` of them.
proof fn lemma_read_runs_sound(bytes: Seq<u8>, n: nat)
    ensures
        read_runs(bytes, n) matches Ok((runs, rest)) ==> runs.len() == n && bytes == runs_bytes(
            runs,
        ) + rest,
    decreases n,
{
    if let Ok((runs, rest)) = read_runs(bytes, n) {
        if n == 0 {
            assert(bytes =~= runs_bytes(runs) + rest);
        } else {
            lemma_read_runs_sound(bytes, (n - 1) as nat);
            let (front, middle) = read_runs(bytes, (n - 1) as nat)->Ok_0;
            lemma_read_run_sound(middle);
            assert(runs.drop_last() =~= front);
            assert(bytes =~= runs_bytes(front) + run_bytes(runs.last()) + rest);
        }
    }
}

/// Once reading runs has met a fault, asking for more runs meets the same.
pub(super) proof fn lemma_read_runs_fault_stays(bytes: Seq<u8>, n: nat, m: nat)
    requires
        n <= m,
        read_runs(bytes, n) is Err,
    ensures
        read_runs(bytes, m) == read_runs(bytes, n),
    decreases m,
{
    if n < m {
        lemma_read_runs_fault_stays(bytes, n, (m - 1) as nat);
    }
}

/// The bytes of a row, with anything behind them, read as the row and leave
/// what was behind.
proof fn lemma_read_row(row: Seq<Run<Cell>>, tail: Seq<u8>)
    requires
        row.len() <= u64::MAX,
    ensures
        read_row(row_bytes(row) + tail) == Ok::<(Seq<Run<Cell>>, Seq<u8>), FormatFault>(
            (row, tail),
        ),
{
    assert(row_bytes(row) + tail =~= u64_le(row.len() as u64) + (runs_bytes(row) + tail));
    lemma_read_u64(row.len() as u64, runs_bytes(row) + tail);
    lemma_read_runs(row, tail);
}

/// Bytes that read as a row begin with the bytes of that row.
proof fn lemma_read_row_sound(bytes: Seq<u8>)
    ensures
        read_row(bytes) matches Ok((row, rest)) ==> row.len() <= u64::MAX && bytes == row_bytes(
            row,
        ) + rest,
{
    if let Ok((row, rest)) = read_row(bytes) {
        lemma_read_u64_sound(bytes);
        let (n, middle) = read_u64(bytes)->Ok_0;
        lemma_read_runs_sound(middle, n as nat);
        assert(bytes =~= u64_le(n) + runs_bytes(row) + rest);
    }
}

/// The bytes of some rows, with anything behind them, read as those rows and
/// leave what was behind.
proof fn lemma_read_rows(rows: Seq<Seq<Run<Cell>>>, tail: Seq<u8>)
    requires
        forall|i: int| 0 <= i < rows.len() ==> (#[trigger] rows[i]).len() <= u64::MAX,
    ensures
        read_rows(rows_bytes(rows) + tail, rows.len()) == Ok::<
            (Seq<Seq<Run<Cell>>>, Seq<u8>),
            FormatFault,
        >((rows, tail)),
    decreases rows.len(),
{
    if rows.len() == 0 {
        assert(rows_bytes(rows) + tail =~= tail);
        assert(rows =~= Seq::empty());
    } else {
        let last_and_tail = row_bytes(rows.last()) + tail;
        assert(rows_bytes(rows) + tail =~= rows_bytes(rows.drop_last()) + last_and_tail);
        assert forall|i: int| 0 <= i < rows.drop_last().len() implies (
        #[trigger] rows.drop_last()[i]).len() <= u64::MAX by {
            assert(rows.drop_last()[i] == rows[i]);
        }
        lemma_read_rows(rows.drop_last(), last_and_tail);
        lemma_read_row(rows.last(), tail);
        assert(rows.drop_last().push(rows.last()) =~= rows);
    }
}

/// Bytes that read as `n` rows begin with the bytes of those rows; there are
/// `n` of them, and none is longer than a length can say.
proof fn lemma_read_rows_sound(bytes: Seq<u8>, n: nat)
    ensures
        read_rows(bytes, n) matches Ok((rows, rest)) ==> {
            &&& rows.len() == n
            &&& bytes == rows_bytes(rows) + rest
            &&& forall|i: int| 0 <= i < rows.len() ==> (#[trigger] rows[i]).len() <= u64::MAX
        },
    decreases n,
{
    if let Ok((rows, rest)) = read_rows(bytes, n) {
        if n == 0 {
            assert(bytes =~= rows_bytes(rows) + rest);
        } else {
            lemma_read_rows_sound(bytes, (n - 1) as nat);
            let (front, middle) = read_rows(bytes, (n - 1) as nat)->Ok_0;
            lemma_read_row_sound(middle);
            assert(rows.drop_last() =~= front);
            assert(bytes =~= rows_bytes(front) + row_bytes(rows.last()) + rest);
            assert forall|i: int| 0 <= i < rows.len() implies (#[trigger] rows[i]).len()
                <= u64::MAX by {
                if i < n - 1 {
                    assert(rows[i] == front[i]);
                }
            }
        }
    }
}

/// Once reading rows has met a fault, asking for more rows meets the same.
pub(super) proof fn lemma_read_rows_fault_stays(bytes: Seq<u8>, n: nat, m: nat)
    requires
        n <= m,
        read_rows(bytes, n) is Err,
    ensures
        read_rows(bytes, m) == read_rows(bytes, n),
    decreases m,
{
    if n < m {
        lemma_read_rows_fault_stays(bytes, n, (m - 1) as nat);
    }
}

/// The bytes of a frame after the version byte read back as the frame.
proof fn lemma_read_frame_body(frame: CompressedFrame)
    requires
        fits_lengths(frame),
    ensures
        read_frame_body(frame_body_bytes(frame)) == Ok::<CompressedFrame, FormatFault>(frame),
{
    let rows_part = rows_bytes(frame.rows);
    let count_part = u64_le(frame.rows.len() as u64) + rows_part;
    let flag_part = seq![flag_byte(frame.has_color)] + count_part;
    let height_part = u32_le(frame.height) + flag_part;
    lemma_read_u32(frame.width, height_part);
    lemma_read_u32(frame.height, flag_part);
    lemma_read_flag(frame.has_color, count_part);
    lemma_read_u64(frame.rows.len() as u64, rows_part);
    assert(rows_part =~= rows_part + Seq::empty());
    lemma_read_rows(frame.rows, Seq::empty());
}

/// Reading inverts writing: the bytes of a frame read back as that frame.
pub proof fn lemma_read_inverts_write(frame: CompressedFrame)
    requires
        fits_lengths(frame),
    ensures
        read_frame(frame_bytes(frame)) == Ok::<CompressedFrame, FormatFault>(frame),
{
    lemma_read_frame_body(frame);
    assert(frame_bytes(frame).skip(1) =~= frame_body_bytes(frame));
}

/// Writing inverts reading: bytes that read as a frame are the bytes of that
/// frame, so no two byte strings spell the same frame.
pub proof fn lemma_write_inverts_read(bytes: Seq<u8>)
    ensures
        read_frame(bytes) matches Ok(frame) ==> fits_lengths(frame) && frame_bytes(frame)
            == bytes,
{
    if let Ok(frame) = read_frame(bytes) {
        let body = bytes.skip(1);
        lemma_read_u32_sound(body);
        let (width, after_width) = read_u32(body)->Ok_0;
        lemma_read_u32_sound(after_width);
        let (height, after_height) = read_u32(after_width)->Ok_0;
        lemma_read_flag_sound(after_height);
        let (has_color, after_flag) = read_flag(after_height)->Ok_0;
        lemma_read_u64_sound(after_flag);
        let (n, after_count) = read_u64(after_flag)->Ok_0;
        lemma_read_rows_sound(after_count, n as nat);
        let (rows, rest) = read_rows(after_count, n as nat)->Ok_0;
        assert(rest =~= Seq::empty());
        assert(after_count =~= rows_bytes(rows));
        assert(bytes =~= seq![FORMAT_VERSION] + body);
    }
}

/// Reading and writing are inverses: bytes read as a frame exactly when they
/// are the bytes of that frame.
pub proof fn lemma_read_is_inverse_of_write(bytes: Seq<u8>, frame: CompressedFrame)
    requires
        fits_lengths(frame),
    ensures
        read_frame(bytes) == Ok::<CompressedFrame, FormatFault>(frame) <==> frame_bytes(frame)
            == bytes,
{
    lemma_read_inverts_write(frame);
    lemma_write_inverts_read(bytes);
}

} // verus!
