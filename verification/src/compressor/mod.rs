//! The two-stage compression pipeline and its parts: run-length encoding of
//! the grid, the encoded grid as bytes, and gzip over those bytes.

pub mod gzip;
pub mod rle;
pub mod runs;
pub mod wire;

use crate::compressor::gzip::{gzip_decoded, gzip_encoded, GzipError};
use crate::compressor::rle::{
    decode_frame, encode_frame, is_restorable, lemma_decode_inverts_encode, CompressionError,
};
use crate::compressor::runs::lemma_encode_len;
use crate::compressor::wire::{frame_bytes, lemma_read_inverts_write, read_frame};
use crate::converter::ascii_pixel::{AsciiPixel, Cell};
use vstd::prelude::*;

verus! {

/// An error of the pipeline, tagged with the stage that failed.
#[derive(Debug)]
pub enum PipelineError {
    /// The run-length stage refused a compressed grid.
    RunLength(CompressionError),
    /// The byte stage failed: gzip, or the byte format of the grid.
    Bytes(GzipError),
}

/// The bytes of a frame before gzip: its run-length encoding, written in the
/// byte format.
pub open spec fn encode_bytes(frame: Seq<Seq<Cell>>) -> Seq<u8> {
    frame_bytes(encode_frame(frame))
}

/// What bytes stand for once gzip is undone: the frame that they spell in the
/// byte format, decoded, or the error of the first stage that refuses.
pub open spec fn decode_bytes(bytes: Seq<u8>) -> Result<Seq<Seq<Cell>>, PipelineError> {
    match read_frame(bytes) {
        Err(fault) => Err(PipelineError::Bytes(GzipError::DeserializationError(fault))),
        Ok(compressed) => match decode_frame(compressed) {
            Err(fault) => Err(PipelineError::RunLength(fault)),
            Ok(frame) => Ok(frame),
        },
    }
}

/// `stream` decompresses to `frame`: gzip reads bytes out of it, and they
/// decode to the frame.
pub open spec fn restores(stream: Seq<u8>, frame: Seq<Seq<Cell>>) -> bool {
    gzip_decoded(stream) matches Some(bytes) && decode_bytes(bytes) == Ok::<
        Seq<Seq<Cell>>,
        PipelineError,
    >(frame)
}

/// Round trip before gzip: the bytes of a frame decode to the frame. This
/// holds of the empty frame and of every rectangular frame with cells whose
/// size fits the 32-bit fields.
pub proof fn lemma_bytes_round_trip(frame: Seq<Seq<Cell>>)
    requires
        is_restorable(frame),
    ensures
        decode_bytes(encode_bytes(frame)) == Ok::<Seq<Seq<Cell>>, PipelineError>(frame),
{
    let compressed = encode_frame(frame);
    assert forall|i: int| 0 <= i < compressed.rows.len() implies (
    #[trigger] compressed.rows[i]).len() <= u64::MAX by {
        lemma_encode_len(frame[i]);
    }
    lemma_read_inverts_write(compressed);
    lemma_decode_inverts_encode(frame);
}

/// Round trip of the pipeline: a stream out of which gzip reads the bytes of
/// a frame, as every stream is that `compress_ascii_grid` returns for it,
/// decompresses to that frame. This holds of the empty frame and of every
/// rectangular frame with cells whose size fits the 32-bit fields.
pub proof fn lemma_pipeline_round_trip(frame: Seq<Seq<Cell>>, stream: Seq<u8>)
    requires
        is_restorable(frame),
    ensures
        gzip_decoded(stream) == Some(encode_bytes(frame)) ==> restores(stream, frame),
{
    lemma_bytes_round_trip(frame);
}

/// The first two stages of compression: run-length encoding, then the byte
/// format. No grid whose size fits the 32-bit fields is refused.
pub fn grid_to_bytes(grid: &[Vec<AsciiPixel>]) -> (result: Result<Vec<u8>, PipelineError>)
    requires
        grid.len() <= u32::MAX,
        forall|i: int| 0 <= i < grid.len() ==> (#[trigger] grid[i]).len() <= u32::MAX,
    ensures
        result matches Ok(bytes) && bytes@ == encode_bytes(grid.deep_view()),
{
    // Stage 1: RLE compression
    let rle_compressed = match rle::compress_grid(grid) {
        Ok(compressed) => compressed,
        Err(fault) => {
            return Err(PipelineError::RunLength(fault));
        },
    };
    // Stage 2: Serialize RLE data
    match gzip::serialize_compressed_grid(&rle_compressed) {
        Ok(bytes) => Ok(bytes),
        Err(error) => Err(PipelineError::Bytes(error)),
    }
}

/// The last two stages of decompression: the byte format, then run-length
/// decoding. The result is the grid that the bytes stand for, or the error of
/// the first stage that refuses them.
pub fn grid_from_bytes(bytes: &[u8]) -> (result: Result<Vec<Vec<AsciiPixel>>, PipelineError>)
    ensures
        match result {
            Ok(grid) => decode_bytes(bytes@) == Ok::<Seq<Seq<Cell>>, PipelineError>(
                grid.deep_view(),
            ),
            Err(error) => decode_bytes(bytes@) == Err::<Seq<Seq<Cell>>, PipelineError>(error),
        },
{
    // Stage 2: Deserialize RLE data
    let rle_data = match gzip::deserialize_compressed_grid(bytes) {
        Ok(compressed) => compressed,
        Err(error) => {
            return Err(PipelineError::Bytes(error));
        },
    };
    // Stage 3: RLE decompression
    match rle::decompress_grid(&rle_data) {
        Ok(grid) => Ok(grid),
        Err(fault) => Err(PipelineError::RunLength(fault)),
    }
}

/// Main compression interface - RLE + Gzip pipeline.
///
/// The result depends on the grid alone: it is the stream that the gzip
/// encoder gives for the bytes of the grid's run-length encoding, and a
/// compression error exactly where the encoder gives none. A stream that
/// comes back holds those bytes under gzip, and where the grid can be
/// restored at all, the stream decompresses to it.
pub fn compress_ascii_grid(grid: &[Vec<AsciiPixel>]) -> (result: Result<Vec<u8>, PipelineError>)
    requires
        grid.len() <= u32::MAX,
        forall|i: int| 0 <= i < grid.len() ==> (#[trigger] grid[i]).len() <= u32::MAX,
    ensures
        match gzip_encoded(encode_bytes(grid.deep_view())) {
            Some(bytes) => result matches Ok(stream) && stream@ == bytes,
            None => result matches Err(PipelineError::Bytes(GzipError::CompressionError(_))),
        },
        result matches Ok(stream) ==> {
            &&& gzip_decoded(stream@) == Some(encode_bytes(grid.deep_view()))
            &&& is_restorable(grid.deep_view()) ==> restores(stream@, grid.deep_view())
        },
{
    let serialized = match grid_to_bytes(grid) {
        Ok(bytes) => bytes,
        Err(error) => {
            return Err(error);
        },
    };
    // Stage 3: Gzip compression
    match gzip::compress(serialized.as_slice()) {
        Ok(stream) => {
            proof {
                if is_restorable(grid.deep_view()) {
                    lemma_pipeline_round_trip(grid.deep_view(), stream@);
                }
            }
            Ok(stream)
        },
        Err(error) => Err(PipelineError::Bytes(error)),
    }
}

/// Main decompression interface - the pipeline in reverse.
///
/// Bytes that are no sound gzip stream give a decompression error. Of all
/// others the result is what `grid_from_bytes` gives for the bytes that gzip
/// reads out of them.
pub fn decompress_ascii_grid(compressed_data: &[u8]) -> (result: Result<
    Vec<Vec<AsciiPixel>>,
    PipelineError,
>)
    ensures
        match gzip_decoded(compressed_data@) {
            None => result matches Err(PipelineError::Bytes(GzipError::DecompressionError(_))),
            Some(bytes) => match result {
                Ok(grid) => decode_bytes(bytes) == Ok::<Seq<Seq<Cell>>, PipelineError>(
                    grid.deep_view(),
                ),
                Err(error) => decode_bytes(bytes) == Err::<Seq<Seq<Cell>>, PipelineError>(error),
            },
        },
        result matches Ok(grid) ==> restores(compressed_data@, grid.deep_view()),
{
    // Stage 1: Gzip decompression
    let gzip_decompressed = match gzip::decompress(compressed_data) {
        Ok(bytes) => bytes,
        Err(error) => {
            return Err(PipelineError::Bytes(error));
        },
    };
    grid_from_bytes(gzip_decompressed.as_slice())
}

} // verus!
