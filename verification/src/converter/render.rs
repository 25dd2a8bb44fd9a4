//! From samples of intensity and colour to a grid of ASCII pixels.

use crate::converter::ascii_pixel::AsciiPixel;
use vstd::prelude::*;

verus! {

/// Main converter struct (namespace only)
pub struct Converter;

/// The place in a character set of `n` characters, ordered from dark to
/// light, that stands for an intensity: the intensity's share of the way from
/// the first character to the last, rounded down.
pub open spec fn char_index(intensity: u8, n: nat) -> int {
    intensity * (n - 1) / 255
}

/// The place of an intensity lies inside the character set; the darkest
/// intensity takes the first character, the lightest the last, and a lighter
/// intensity never takes an earlier character.
pub proof fn lemma_char_index(intensity: u8, lighter: u8, n: nat)
    requires
        n > 0,
        intensity <= lighter,
    ensures
        0 <= char_index(intensity, n) <= char_index(lighter, n) < n,
        char_index(0, n) == 0,
        char_index(255, n) == n - 1,
{
    let last = n - 1;
    assert(intensity * last <= lighter * last <= 255 * last) by (nonlinear_arith)
        requires
            0 <= intensity <= lighter <= 255,
            0 <= last,
    ;
    assert(0 <= intensity * last) by (nonlinear_arith)
        requires
            0 <= intensity,
            0 <= last,
    ;
}

impl Converter {
    /// Maps a grayscale intensity (0-255) to a character from the set, which
    /// must hold at least one character.
    pub fn intensity_to_char(intensity: u8, chars: &[char]) -> (ch: char)
        requires
            chars.len() > 0,
        ensures
            ch == chars[char_index(intensity, chars.len() as nat)],
    {
        proof {
            lemma_char_index(intensity, intensity, chars.len() as nat);
        }
        let last = (chars.len() - 1) as u128;
        assert(intensity * last <= 255 * last) by (nonlinear_arith)
            requires
                0 <= intensity <= 255,
                0 <= last,
        ;
        let index = (intensity as u128 * last / 255) as usize;
        chars[index]
    }

    /// Builds the ASCII grid from a pixel getter. The getter gives the
    /// intensity and the colour of the sample at column `x` and row `y`, and
    /// is asked once for every place of the grid, row by row. The character
    /// set must hold a character unless the grid has no place to fill.
    ///
    /// The grid has `output_height` rows of `output_width` pixels; each pixel
    /// holds the character of an intensity that the getter gave for its
    /// place, and the colour that came with it.
    pub fn build_ascii_grid<F>(
        output_width: u32,
        output_height: u32,
        character_set: &[char],
        get_pixel: F,
    ) -> (ascii_grid: Vec<Vec<AsciiPixel>>) where F: Fn(u32, u32) -> (u8, Option<[u8; 3]>)
        requires
            output_width > 0 && output_height > 0 ==> character_set.len() > 0,
            forall|x: u32, y: u32|
                x < output_width && y < output_height ==> call_requires(get_pixel, (x, y)),
        ensures
            ascii_grid.len() == output_height,
            forall|y: int|
                0 <= y < output_height ==> (#[trigger] ascii_grid[y]).len() == output_width,
            forall|x: int, y: int|
                0 <= x < output_width && 0 <= y < output_height ==> Self::renders(
                    get_pixel,
                    character_set@,
                    x as u32,
                    y as u32,
                    #[trigger] ascii_grid[y][x],
                ),
    {
        let mut ascii_grid: Vec<Vec<AsciiPixel>> = Vec::new();
        let mut y: u32 = 0;
        while y < output_height
            invariant
                y <= output_height,
                output_width > 0 && output_height > 0 ==> character_set.len() > 0,
                forall|x: u32, y: u32|
                    x < output_width && y < output_height ==> call_requires(get_pixel, (x, y)),
                ascii_grid.len() == y,
                forall|j: int| 0 <= j < y ==> (#[trigger] ascii_grid[j]).len() == output_width,
                forall|i: int, j: int|
                    0 <= i < output_width && 0 <= j < y ==> Self::renders(
                        get_pixel,
                        character_set@,
                        i as u32,
                        j as u32,
                        #[trigger] ascii_grid[j][i],
                    ),
            decreases output_height - y,
        {
            let mut row: Vec<AsciiPixel> = Vec::new();
            let mut x: u32 = 0;
            while x < output_width
                invariant
                    x <= output_width,
                    y < output_height,
                    output_width > 0 ==> character_set.len() > 0,
                    forall|x: u32, y: u32|
                        x < output_width && y < output_height ==> call_requires(
                            get_pixel,
                            (x, y),
                        ),
                    row.len() == x,
                    forall|i: int|
                        0 <= i < x ==> Self::renders(
                            get_pixel,
                            character_set@,
                            i as u32,
                            y,
                            #[trigger] row[i],
                        ),
                decreases output_width - x,
            {
                let (intensity, rgb) = get_pixel(x, y);
                let ascii_char = Self::intensity_to_char(intensity, character_set);
                row.push(AsciiPixel { ch: ascii_char, rgb });
                x += 1;
            }
            ascii_grid.push(row);
            y += 1;
        }
        ascii_grid
    }

    /// `pixel` shows a sample that the getter gives for column `x` and row
    /// `y`: the character of the sample's intensity, and the sample's colour.
    pub open spec fn renders<F: Fn(u32, u32) -> (u8, Option<[u8; 3]>)>(
        get_pixel: F,
        character_set: Seq<char>,
        x: u32,
        y: u32,
        pixel: AsciiPixel,
    ) -> bool {
        exists|sample: (u8, Option<[u8; 3]>)|
            {
                &&& #[trigger] call_ensures(get_pixel, (x, y), sample)
                &&& pixel.ch == character_set[char_index(sample.0, character_set.len())]
                &&& pixel.rgb == sample.1
            }
    }
}

} // verus!
