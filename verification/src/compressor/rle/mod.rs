//! Run-length encoding of frames, row by row.

mod compress;
mod decompress;
mod flat;
mod types;

pub use compress::{
    compress_ascii_grid, compress_grid, compress_row, grid_has_color, pixels_equal, row_has_color,
};
pub use compress::{
    encode_frame, has_colored_cell, is_rectangular, lemma_encoding_well_formed,
    row_has_colored_cell,
};
pub use types::{CompressedFrame, CompressedGrid, CompressionError, RleEntry};
pub use decompress::{decompress_ascii_grid, decompress_grid, decompress_row};
pub use decompress::{decode_frame, decode_rows, is_restorable, row_fault, written_out};
pub use decompress::{
    lemma_decode_inverts_encode, lemma_decode_rows_fault_stays, lemma_decoded_frames_are_sound,
    lemma_first_fault_decides, lemma_sound_rows_are_counted, lemma_well_formed_decodes,
};
pub use flat::{char_at, flat_decode, flat_encode, pairs_as_runs, prefix, FlatRuns};
pub use flat::{is_restorable_grid, lemma_flat_round_trip};
pub use flat::{compress, decompress, expand_up_to, RleCompressed};
