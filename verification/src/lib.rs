//! Lossless compression of grids of coloured character cells: run-length
//! encoding of the rows, a byte format for the encoded frame, and gzip on top.

pub mod compressor;
pub mod converter;
