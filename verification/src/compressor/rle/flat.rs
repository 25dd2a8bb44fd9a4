//! Run-length encoding of a grid of plain characters, read as one sequence:
//! all rows in order, one after the other.

use crate::compressor::runs::{
    expand, lemma_encode_round_trip, lemma_expand_push, repeat, run_length_encode, Run,
};
use vstd::prelude::*;
use vstd::seq_lib::lemma_flatten_concat;

verus! {

/// The mathematical value of a compressed grid of characters: the runs of
/// the flat sequence, and the declared size.
pub struct FlatRuns {
    pub runs: Seq<Run<char>>,
    pub width: nat,
    pub height: nat,
}

/// A grid of characters in run-length form: `(count, character)` pairs over
/// the grid read row by row, and the size of the grid.
#[derive(Debug, Clone)]
pub struct RleCompressed {
    pub data: Vec<(u32, char)>,
    pub width: usize,
    pub height: usize,
}

/// The runs that `(count, character)` pairs stand for.
pub open spec fn pairs_as_runs(data: Seq<(u32, char)>) -> Seq<Run<char>> {
    Seq::new(data.len(), |i: int| Run { count: data[i].0, item: data[i].1 })
}

impl View for RleCompressed {
    type V = FlatRuns;

    open spec fn view(&self) -> FlatRuns {
        FlatRuns {
            runs: pairs_as_runs(self.data@),
            width: self.width as nat,
            height: self.height as nat,
        }
    }
}

impl RleCompressed {
    /// A compressed grid of the given size that holds no run yet.
    pub fn new(width: usize, height: usize) -> (compressed: Self)
        ensures
            compressed@ == (FlatRuns {
                runs: Seq::empty(),
                width: width as nat,
                height: height as nat,
            }),
    {
        let compressed = Self { data: Vec::new(), width, height };
        assert(pairs_as_runs(compressed.data@) =~= Seq::empty());
        compressed
    }

    /// The number of runs.
    pub fn compressed_size(&self) -> (size: usize)
        ensures
            size == self@.runs.len(),
    {
        self.data.len()
    }
}

/// The compressed form of a grid of characters: the size of the grid, taken
/// from its first row, and the run-length encoding of all its characters in
/// reading order. A grid whose first row is empty gets no runs.
pub open spec fn flat_encode(grid: Seq<Seq<char>>) -> FlatRuns {
    if grid.len() == 0 {
        FlatRuns { runs: Seq::empty(), width: 0, height: 0 }
    } else {
        FlatRuns {
            runs: if grid[0].len() == 0 {
                Seq::empty()
            } else {
                run_length_encode(grid.flatten())
            },
            width: grid[0].len(),
            height: grid.len(),
        }
    }
}

/// The character at a place of a sequence, a space behind its end.
pub open spec fn char_at(chars: Seq<char>, at: int) -> char {
    if 0 <= at < chars.len() {
        chars[at]
    } else {
        ' '
    }
}

/// The grid that a compressed form stands for: rows of the declared width,
/// filled in reading order with the written-out runs, and with spaces where
/// the runs end early; what the runs hold beyond the grid is dropped. A form
/// that declares no width or no height stands for the empty grid.
pub open spec fn flat_decode(flat: FlatRuns) -> Seq<Seq<char>> {
    if flat.width == 0 || flat.height == 0 {
        Seq::empty()
    } else {
        Seq::new(
            flat.height,
            |r: int| Seq::new(flat.width, |c: int| char_at(expand(flat.runs), r * flat.width + c)),
        )
    }
}

/// The first `n` items of a sequence, all of it where it is shorter.
pub open spec fn prefix(chars: Seq<char>, n: nat) -> Seq<char> {
    if n <= chars.len() {
        chars.take(n as int)
    } else {
        chars
    }
}

/// The rows before row `r` and the first `c` characters of row `r` are no
/// more than the whole grid holds.
proof fn lemma_read_so_far(rows: Seq<Seq<char>>, r: int, c: int)
    requires
        0 <= r < rows.len(),
        0 <= c <= rows[r].len(),
    ensures
        (rows.take(r).flatten() + rows[r].take(c)).len() <= rows.flatten().len(),
        rows.take(r + 1).flatten() == rows.take(r).flatten() + rows[r],
{
    assert(rows =~= rows.take(r + 1) + rows.skip(r + 1));
    lemma_flatten_concat(rows.take(r + 1), rows.skip(r + 1));
    assert(rows.take(r + 1) =~= rows.take(r).push(rows[r]));
    rows.take(r).lemma_flatten_push(rows[r]);
}

/// A grid of characters that compression can take and decompression gives
/// back: it is empty, or every row has as many characters as the first and
/// the first has some; and its characters fit the 32-bit counts.
pub open spec fn is_restorable_grid(grid: Seq<Seq<char>>) -> bool {
    &&& grid.flatten().len() <= u32::MAX
    &&& grid.len() > 0 ==> grid[0].len() > 0
    &&& forall|r: int| 0 <= r < grid.len() ==> (#[trigger] grid[r]).len() == grid[0].len()
}

/// Reading a grid of rows of `width` characters as one sequence puts the
/// character of row `r` and column `c` at place `r * width + c`.
proof fn lemma_place_in_reading_order(grid: Seq<Seq<char>>, width: nat, r: int, c: int)
    requires
        forall|k: int| 0 <= k < grid.len() ==> (#[trigger] grid[k]).len() == width,
        0 <= r < grid.len(),
        0 <= c < width,
    ensures
        grid.flatten().len() == grid.len() * width,
        0 <= r * width + c < grid.flatten().len(),
        grid.flatten()[r * width + c] == grid[r][c],
    decreases grid.len(),
{
    let front = grid.drop_last();
    assert(grid =~= front.push(grid.last()));
    front.lemma_flatten_push(grid.last());
    lemma_rows_of_width(front, width);
    assert((front.len() + 1) * width == front.len() * width + width) by (nonlinear_arith);
    if r < grid.len() - 1 {
        lemma_place_in_reading_order(front, width, r, c);
    } else {
        assert(r * width == front.len() * width);
        assert(0 <= front.len() * width) by (nonlinear_arith);
    }
}

/// A grid of rows of `width` characters holds rows times `width` characters.
proof fn lemma_rows_of_width(grid: Seq<Seq<char>>, width: nat)
    requires
        forall|k: int| 0 <= k < grid.len() ==> (#[trigger] grid[k]).len() == width,
    ensures
        grid.flatten().len() == grid.len() * width,
    decreases grid.len(),
{
    if grid.len() > 0 {
        let front = grid.drop_last();
        assert(grid =~= front.push(grid.last()));
        front.lemma_flatten_push(grid.last());
        lemma_rows_of_width(front, width);
        assert((front.len() + 1) * width == front.len() * width + width) by (nonlinear_arith);
    }
}

/// Round trip: decompressing the compressed form of a grid gives the grid
/// back. This holds of the empty grid and of every grid whose rows are
/// equally long and not empty, with no more characters than the counts can
/// hold.
pub proof fn lemma_flat_round_trip(grid: Seq<Seq<char>>)
    requires
        is_restorable_grid(grid),
    ensures
        flat_decode(flat_encode(grid)) == grid,
{
    if grid.len() == 0 {
        assert(grid =~= Seq::empty());
    } else {
        let width = grid[0].len();
        let all = grid.flatten();
        lemma_encode_round_trip(all);
        let decoded = flat_decode(flat_encode(grid));
        assert forall|r: int| 0 <= r < grid.len() implies (#[trigger] decoded[r]) == grid[r] by {
            assert forall|c: int| 0 <= c < width implies decoded[r][c] == grid[r][c] by {
                lemma_place_in_reading_order(grid, width, r, c);
            }
            assert(decoded[r] =~= grid[r]);
        }
        assert(decoded =~= grid);
    }
}

/// Compresses a grid of characters. The number of characters must fit the
/// 32-bit counts.
pub fn compress(grid: &[Vec<char>]) -> (compressed: RleCompressed)
    requires
        grid.deep_view().flatten().len() <= u32::MAX,
    ensures
        compressed@ == flat_encode(grid.deep_view()),
{
    if grid.len() == 0 {
        return RleCompressed::new(0, 0);
    }
    let height = grid.len();
    let width = grid[0].len();
    let mut compressed = RleCompressed::new(width, height);
    let ghost rows = grid.deep_view();
    let ghost all = rows.flatten();
    assert(rows[0] =~= grid[0]@);
    if width == 0 {
        return compressed;
    }
    // Process the grid as a flat sequence
    let mut current_char = grid[0][0];
    let mut count: u32 = 1;
    let mut r: usize = 0;
    let mut c: usize = 1;
    let ghost mut seen: Seq<char> = seq![current_char];
    proof {
        reveal_with_fuel(run_length_encode, 2);
        assert(rows.take(0) =~= Seq::empty());
        assert(seen =~= rows.take(0).flatten() + rows[0].take(1));
        assert(seen.drop_last() =~= Seq::empty());
        assert(run_length_encode(seen) =~= pairs_as_runs(compressed.data@).push(
            Run { count: 1, item: current_char },
        ));
        lemma_read_so_far(rows, 0, 1);
    }
    while r < grid.len()
        invariant
            r <= grid.len(),
            rows == grid.deep_view(),
            all == rows.flatten(),
            all.len() <= u32::MAX,
            r < grid.len() ==> c <= grid[r as int].len() && seen == rows.take(r as int).flatten()
                + rows[r as int].take(c as int),
            r == grid.len() ==> seen == all,
            1 <= count <= seen.len() <= all.len(),
            compressed.width == width,
            compressed.height == height,
            run_length_encode(seen) == pairs_as_runs(compressed.data@).push(
                Run { count, item: current_char },
            ),
        decreases grid.len() - r,
    {
        let row = grid[r].as_slice();
        assert(rows[r as int] =~= row@);
        while c < row.len()
            invariant
                r < grid.len(),
                c <= row.len(),
                rows == grid.deep_view(),
                rows[r as int] == row@,
                all == rows.flatten(),
                all.len() <= u32::MAX,
                seen == rows.take(r as int).flatten() + rows[r as int].take(c as int),
                1 <= count <= seen.len() <= all.len(),
                compressed.width == width,
                compressed.height == height,
                run_length_encode(seen) == pairs_as_runs(compressed.data@).push(
                    Run { count, item: current_char },
                ),
            decreases row.len() - c,
        {
            let ch = row[c];
            let ghost longer = seen.push(ch);
            proof {
                assert(rows[r as int].take(c + 1) =~= rows[r as int].take(c as int).push(ch));
                assert(longer =~= rows.take(r as int).flatten() + rows[r as int].take(c + 1));
                lemma_read_so_far(rows, r as int, c + 1);
                assert(longer.drop_last() =~= seen);
                assert(run_length_encode(seen).drop_last() =~= pairs_as_runs(compressed.data@));
            }
            if ch == current_char {
                count += 1;
            } else {
                let ghost before = pairs_as_runs(compressed.data@);
                compressed.data.push((count, current_char));
                assert(pairs_as_runs(compressed.data@) =~= before.push(
                    Run { count, item: current_char },
                ));
                current_char = ch;
                count = 1;
            }
            c += 1;
            proof {
                seen = longer;
            }
        }
        proof {
            assert(rows[r as int].take(c as int) =~= rows[r as int]);
            lemma_read_so_far(rows, r as int, c as int);
            assert(rows.take(grid.len() as int) =~= rows);
            if r + 1 < grid.len() {
                assert(rows[r + 1].take(0) =~= Seq::empty());
                assert(seen =~= rows.take(r + 1).flatten() + rows[r + 1].take(0));
            }
        }
        r += 1;
        c = 0;
    }
    // Don't forget the last run
    let ghost before = pairs_as_runs(compressed.data@);
    compressed.data.push((count, current_char));
    assert(pairs_as_runs(compressed.data@) =~= before.push(Run { count, item: current_char }));
    compressed
}

/// Writes out runs, but no more than `limit` characters.
pub fn expand_up_to(data: &[(u32, char)], limit: usize) -> (chars: Vec<char>)
    ensures
        chars@ == prefix(expand(pairs_as_runs(data@)), limit as nat),
{
    let ghost runs = pairs_as_runs(data@);
    let mut chars: Vec<char> = Vec::new();
    let mut i: usize = 0;
    assert(runs.take(0) =~= Seq::empty());
    assert(chars@ =~= prefix(expand(runs.take(0)), limit as nat));
    while i < data.len()
        invariant
            i <= data.len(),
            runs == pairs_as_runs(data@),
            chars@ == prefix(expand(runs.take(i as int)), limit as nat),
        decreases data.len() - i,
    {
        let (count, ch) = data[i];
        let ghost done = expand(runs.take(i as int));
        let mut k: u32 = 0;
        assert(done + repeat(ch, 0) =~= done);
        while k < count && chars.len() < limit
            invariant
                k <= count,
                chars@ == prefix(done + repeat(ch, k as nat), limit as nat),
            decreases count - k,
        {
            chars.push(ch);
            k += 1;
            assert(chars@ =~= prefix(done + repeat(ch, k as nat), limit as nat));
        }
        proof {
            assert(runs.take(i + 1) =~= runs.take(i as int).push(runs[i as int]));
            lemma_expand_push(runs.take(i as int), runs[i as int]);
            assert(chars@ =~= prefix(done + repeat(ch, count as nat), limit as nat));
        }
        i += 1;
    }
    assert(runs.take(data.len() as int) =~= runs);
    chars
}

/// Decompresses a grid of characters. The declared size must be that of a
/// grid that memory can index: width times height fits `usize`.
pub fn decompress(compressed: &RleCompressed) -> (grid: Vec<Vec<char>>)
    requires
        compressed.width * compressed.height <= usize::MAX,
    ensures
        grid.deep_view() == flat_decode(compressed@),
{
    let mut result: Vec<Vec<char>> = Vec::new();
    if compressed.width == 0 || compressed.height == 0 {
        assert(result.deep_view() =~= Seq::empty());
        return result;
    }
    let width = compressed.width;
    let height = compressed.height;
    let chars = expand_up_to(compressed.data.as_slice(), width * height);
    let ghost written = expand(compressed@.runs);
    let mut row_idx: usize = 0;
    while row_idx < height
        invariant
            row_idx <= height,
            width == compressed.width,
            height == compressed.height,
            width > 0,
            width * height <= usize::MAX,
            written == expand(compressed@.runs),
            chars@ == prefix(written, (width * height) as nat),
            result.len() == row_idx,
            forall|r: int|
                0 <= r < row_idx ==> (#[trigger] result[r])@ == flat_decode(compressed@)[r],
        decreases height - row_idx,
    {
        let mut row: Vec<char> = Vec::new();
        let mut col: usize = 0;
        while col < width
            invariant
                col <= width,
                row_idx < height,
                width * height <= usize::MAX,
                chars@ == prefix(written, (width * height) as nat),
                row.len() == col,
                forall|c: int|
                    0 <= c < col ==> (#[trigger] row[c]) == char_at(written, row_idx * width + c),
            decreases width - col,
        {
            assert(row_idx * width + col < width * height) by (nonlinear_arith)
                requires
                    row_idx < height,
                    col < width,
            ;
            let pos = row_idx * width + col;
            let ch = if pos < chars.len() {
                chars[pos]
            } else {
                ' '
            };
            row.push(ch);
            col += 1;
        }
        assert(row@ =~= flat_decode(compressed@)[row_idx as int]);
        result.push(row);
        row_idx += 1;
    }
    assert(result.deep_view() =~= flat_decode(compressed@)) by {
        assert forall|r: int| 0 <= r < height implies (#[trigger] result.deep_view()[r])
            == flat_decode(compressed@)[r] by {
            assert(result.deep_view()[r] =~= result[r]@);
        }
    }
    result
}

} // verus!
