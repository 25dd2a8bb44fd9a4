//! The grid model, the cells and the frames built from them, and the part of
//! the image conversion that works on whole numbers.

pub mod ascii_pixel;
pub mod render;

pub use self::ascii_pixel::AsciiPixel;
pub use self::ascii_pixel::Cell;
pub use self::render::{char_index, lemma_char_index, Converter};
