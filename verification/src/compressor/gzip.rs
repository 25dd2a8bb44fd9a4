//! Gzip compression of byte buffers, and the compressed grid as bytes.

use crate::compressor::rle::{CompressedFrame, CompressedGrid};
use crate::compressor::wire::{
    frame_bytes, frame_from_bytes, frame_to_bytes, lemma_read_inverts_write,
    lemma_write_inverts_read, read_frame, FormatFault,
};
use flate2::read::GzDecoder;
use flate2::read::GzEncoder;
use flate2::Compression;
use std::io::Read;
use vstd::prelude::*;

verus! {

/// Error type for gzip operations.
#[derive(Debug)]
pub enum GzipError {
    /// The compressor could not produce a stream; the text is its own.
    CompressionError(String),
    /// The bytes are no gzip stream, or a damaged one; the text is the
    /// decompressor's own.
    DecompressionError(String),
    /// The bytes do not spell a compressed grid.
    DeserializationError(FormatFault),
}

/// `std::io::Error`, the error of std's readers and writers, declared so that
/// the gzip wrappers can hand it on. Nothing is known of what it holds.
#[verifier::external_type_specification]
#[verifier::external_body]
pub struct ExIoError(std::io::Error);

/// What `flate2::read::GzDecoder` reads out of a byte buffer until its end:
/// the data of the buffer's first gzip member, or nothing where the buffer
/// does not begin with a sound gzip member.
pub uninterp spec fn gzip_decoded(stream: Seq<u8>) -> Option<Seq<u8>>;

/// What `flate2::read::GzEncoder` at the default level gives for a byte
/// buffer, read to its end: the gzip stream, or nothing where the encoder
/// reports an error. The encoder reads no clock and no environment: its
/// header is fixed, and its body depends on the data and on the backend that
/// flate2 was built with, so the same data gives the same stream.
pub uninterp spec fn gzip_encoded(data: Seq<u8>) -> Option<Seq<u8>>;

/// Reads `data` through `flate2::read::GzEncoder` at the default level, to
/// the end: the stream it gives where it reaches the end, its error where it
/// does not. Whatever stream comes out, `flate2::read::GzDecoder` reads
/// `data` back out of it: the two are made for each other, and the crate's
/// own tests hold them to it.
#[verifier::external_body]
fn gzip_encode(data: &[u8]) -> (outcome: Result<Vec<u8>, std::io::Error>)
    ensures
        match outcome {
            Ok(stream) => gzip_encoded(data@) == Some(stream@),
            Err(_) => gzip_encoded(data@) is None,
        },
        outcome matches Ok(stream) ==> gzip_decoded(stream@) == Some(data@),
{
    let mut encoder = GzEncoder::new(data, Compression::default());
    let mut compressed = Vec::new();
    match encoder.read_to_end(&mut compressed) {
        Ok(_) => Ok(compressed),
        Err(e) => Err(e),
    }
}

/// Reads `stream` through `flate2::read::GzDecoder`, to the end: the data it
/// gives where it reaches the end, its error where it does not.
#[verifier::external_body]
fn gzip_decode(stream: &[u8]) -> (outcome: Result<Vec<u8>, std::io::Error>)
    ensures
        match outcome {
            Ok(data) => gzip_decoded(stream@) == Some(data@),
            Err(_) => gzip_decoded(stream@) is None,
        },
{
    let mut decoder = GzDecoder::new(stream);
    let mut decompressed = Vec::new();
    match decoder.read_to_end(&mut decompressed) {
        Ok(_) => Ok(decompressed),
        Err(e) => Err(e),
    }
}

/// What `compress` returns for an outcome of the gzip encoder: the stream
/// as it is, or a compression error that carries the encoder's message.
pub fn compressed_or_error(outcome: Result<Vec<u8>, std::io::Error>) -> (result: Result<
    Vec<u8>,
    GzipError,
>)
    ensures
        match outcome {
            Ok(stream) => result == Ok::<Vec<u8>, GzipError>(stream),
            Err(_) => result matches Err(GzipError::CompressionError(_)),
        },
{
    match outcome {
        Ok(stream) => Ok(stream),
        Err(e) => Err(GzipError::CompressionError(e.to_string())),
    }
}

/// What `decompress` returns for an outcome of the gzip decoder: the data
/// as it is, or a decompression error that carries the decoder's message.
pub fn decompressed_or_error(outcome: Result<Vec<u8>, std::io::Error>) -> (result: Result<
    Vec<u8>,
    GzipError,
>)
    ensures
        match outcome {
            Ok(data) => result == Ok::<Vec<u8>, GzipError>(data),
            Err(_) => result matches Err(GzipError::DecompressionError(_)),
        },
{
    match outcome {
        Ok(data) => Ok(data),
        Err(e) => Err(GzipError::DecompressionError(e.to_string())),
    }
}

/// Compresses raw byte data using gzip compression.
///
/// Every byte buffer is accepted, and the result depends on the data alone:
/// it is the stream that the gzip encoder gives for `data`, and a compression
/// error exactly where the encoder gives none. A stream that comes back
/// decompresses to `data`.
pub fn compress(data: &[u8]) -> (result: Result<Vec<u8>, GzipError>)
    ensures
        match gzip_encoded(data@) {
            Some(bytes) => result matches Ok(stream) && stream@ == bytes,
            None => result matches Err(GzipError::CompressionError(_)),
        },
        result matches Ok(stream) ==> gzip_decoded(stream@) == Some(data@),
{
    compressed_or_error(gzip_encode(data))
}

/// Decompresses gzip-compressed byte data.
///
/// The data comes back exactly where the bytes begin with a sound gzip
/// member; every other buffer is refused with a decompression error.
pub fn decompress(compressed: &[u8]) -> (result: Result<Vec<u8>, GzipError>)
    ensures
        match result {
            Ok(data) => gzip_decoded(compressed@) == Some(data@),
            Err(error) => gzip_decoded(compressed@) is None && error is DecompressionError,
        },
{
    decompressed_or_error(gzip_decode(compressed))
}

/// Serializes a compressed grid to bytes, in the format of
/// `crate::compressor::wire`. This never fails, and the bytes read back as
/// the grid.
pub fn serialize_compressed_grid(grid: &CompressedGrid) -> (result: Result<Vec<u8>, GzipError>)
    ensures
        result matches Ok(bytes) && bytes@ == frame_bytes(grid@),
        result matches Ok(bytes) && read_frame(bytes@) == Ok::<CompressedFrame, FormatFault>(
            grid@,
        ),
{
    let bytes = frame_to_bytes(grid);
    proof {
        lemma_read_inverts_write(grid@);
    }
    Ok(bytes)
}

/// Deserializes bytes back to a compressed grid: the one grid whose bytes
/// they are, or a deserialization error with the first fault met in reading
/// them.
pub fn deserialize_compressed_grid(data: &[u8]) -> (result: Result<CompressedGrid, GzipError>)
    ensures
        match result {
            Ok(grid) => read_frame(data@) == Ok::<CompressedFrame, FormatFault>(grid@),
            Err(error) => error matches GzipError::DeserializationError(fault) && read_frame(
                data@,
            ) == Err::<CompressedFrame, FormatFault>(fault),
        },
        result matches Ok(grid) ==> frame_bytes(grid@) == data@,
{
    proof {
        lemma_write_inverts_read(data@);
    }
    match frame_from_bytes(data) {
        Ok(grid) => Ok(grid),
        Err(fault) => Err(GzipError::DeserializationError(fault)),
    }
}

} // verus!
