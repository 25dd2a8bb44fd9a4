use ascii_codec::compressor::gzip;
use ascii_codec::compressor::gzip::GzipError;
use std::io::Read;

#[test]
fn test_basic_compression() {
    let data = b"Hello, world!";
    let compressed = gzip::compress(data).unwrap();
    let decompressed = gzip::decompress(&compressed).unwrap();
    assert_eq!(data, decompressed.as_slice());
}

#[test]
fn test_empty_data() {
    let data = b"";
    let compressed = gzip::compress(data).unwrap();
    let decompressed = gzip::decompress(&compressed).unwrap();
    assert_eq!(data, decompressed.as_slice());
}

#[test]
fn test_gzip_simple_compression() {
    let test_data = b"Hello, World! This is a test string for gzip compression.";
    let compressed = gzip::compress(test_data).expect("Gzip compression should succeed");
    let decompressed = gzip::decompress(&compressed).expect("Gzip decompression should succeed");

    assert_eq!(test_data, decompressed.as_slice());
}

#[test]
fn test_gzip_empty_data() {
    let empty_data = b"";
    let compressed = gzip::compress(empty_data).expect("Gzip compression should succeed");
    let decompressed = gzip::decompress(&compressed).expect("Gzip decompression should succeed");

    assert_eq!(empty_data, decompressed.as_slice());
}

#[test]
fn test_gzip_repetitive_data() {
    // Test data with lots of repetition (should compress well)
    let repetitive_data = "A".repeat(1000);
    let compressed =
        gzip::compress(repetitive_data.as_bytes()).expect("Gzip compression should succeed");
    let decompressed = gzip::decompress(&compressed).expect("Gzip decompression should succeed");

    assert_eq!(repetitive_data.as_bytes(), decompressed.as_slice());

    // Verify compression is effective
    assert!(
        compressed.len() < repetitive_data.len() / 2,
        "Gzip should compress repetitive data significantly"
    );
}

#[test]
fn test_gzip_random_data() {
    // Test with pseudo-random data (should not compress well)
    let random_data = "abcdefghijklmnopqrstuvwxyz0123456789!@#$%^&*()".repeat(20);
    let compressed =
        gzip::compress(random_data.as_bytes()).expect("Gzip compression should succeed");
    let decompressed = gzip::decompress(&compressed).expect("Gzip decompression should succeed");

    assert_eq!(random_data.as_bytes(), decompressed.as_slice());
}

#[test]
fn test_gzip_large_data() {
    // Test with larger data set
    let large_data = "This is a test string that will be repeated many times to create a large dataset for testing gzip compression performance and correctness. ".repeat(100);
    let compressed =
        gzip::compress(large_data.as_bytes()).expect("Gzip compression should succeed");
    let decompressed = gzip::decompress(&compressed).expect("Gzip decompression should succeed");

    assert_eq!(large_data.as_bytes(), decompressed.as_slice());
}

#[test]
fn test_gzip_ascii_art_pattern() {
    // Test with ASCII art-like patterns
    let ascii_art =
        "   ###   \n  #####  \n #######\n#########\n #######\n  #####  \n   ###   \n".repeat(10);
    let compressed =
        gzip::compress(ascii_art.as_bytes()).expect("Gzip compression should succeed");
    let decompressed = gzip::decompress(&compressed).expect("Gzip decompression should succeed");

    assert_eq!(ascii_art.as_bytes(), decompressed.as_slice());

    // ASCII art should compress reasonably well
    assert!(compressed.len() < ascii_art.len(), "ASCII art should compress");
}

#[test]
fn a_compressed_stream_is_a_gzip_member_and_not_the_data() {
    let data = b"Hello, world!";
    let compressed = gzip::compress(data).unwrap();
    assert_ne!(compressed.as_slice(), &data[..]);
    assert_eq!(&compressed[..3], &[0x1f, 0x8b, 0x08]);
    // Another gzip reader takes the stream as well.
    let mut reader = flate2::read::MultiGzDecoder::new(compressed.as_slice());
    let mut read_back = Vec::new();
    reader.read_to_end(&mut read_back).unwrap();
    assert_eq!(read_back, data);
}

#[test]
fn the_empty_buffer_has_a_stream_of_its_own() {
    let compressed = gzip::compress(b"").unwrap();
    assert!(!compressed.is_empty());
    assert_eq!(gzip::decompress(&compressed).unwrap(), Vec::<u8>::new());
}

#[test]
fn decompression_gives_the_data_and_not_the_stream() {
    // A stored (uncompressed) gzip member holding "hi".
    let stream: Vec<u8> = vec![
        0x1f, 0x8b, 0x08, 0x00, 0x00, 0x00, 0x00, 0x00, 0x00, 0xff, 0x01, 0x02, 0x00, 0xfd, 0xff,
        b'h', b'i', 0xac, 0x2a, 0x93, 0xd8, 0x02, 0x00, 0x00, 0x00,
    ];
    assert_eq!(gzip::decompress(&stream).unwrap(), b"hi".to_vec());
}

#[test]
fn bytes_that_are_no_gzip_stream_are_refused() {
    assert!(matches!(
        gzip::decompress(b"Hello, world!"),
        Err(GzipError::DecompressionError(_))
    ));
    assert!(matches!(gzip::decompress(b""), Err(GzipError::DecompressionError(_))));
}

#[test]
fn a_truncated_or_damaged_stream_is_refused() {
    let compressed = gzip::compress(&[7u8; 5000]).unwrap();
    let cut = &compressed[..compressed.len() - 3];
    assert!(matches!(gzip::decompress(cut), Err(GzipError::DecompressionError(_))));
    let mut damaged = compressed.clone();
    let last = damaged.len() - 1;
    damaged[last] ^= 0x55;
    assert!(matches!(gzip::decompress(&damaged), Err(GzipError::DecompressionError(_))));
}

#[test]
fn an_outcome_of_the_encoder_becomes_the_result_of_compress() {
    assert_eq!(gzip::compressed_or_error(Ok(vec![1, 2, 3])).unwrap(), vec![1, 2, 3]);
    let fault = std::io::Error::new(std::io::ErrorKind::Other, "disk on fire");
    match gzip::compressed_or_error(Err(fault)) {
        Err(GzipError::CompressionError(text)) => assert_eq!(text, "disk on fire"),
        other => panic!("unexpected result: {:?}", other),
    }
}

#[test]
fn an_outcome_of_the_decoder_becomes_the_result_of_decompress() {
    assert_eq!(gzip::decompressed_or_error(Ok(vec![])).unwrap(), Vec::<u8>::new());
    assert_eq!(gzip::decompressed_or_error(Ok(vec![9, 8])).unwrap(), vec![9, 8]);
    let fault = std::io::Error::new(std::io::ErrorKind::InvalidData, "bad stream");
    match gzip::decompressed_or_error(Err(fault)) {
        Err(GzipError::DecompressionError(text)) => assert_eq!(text, "bad stream"),
        other => panic!("unexpected result: {:?}", other),
    }
}

#[test]
fn repetitive_data_shrinks_below_its_size() {
    let data = vec![b'A'; 52];
    let compressed = gzip::compress(&data).unwrap();
    let ratio = compressed.len() as f64 / data.len() as f64;
    assert!(ratio > 0.0 && ratio < 1.0);
}

#[test]
fn equal_data_gives_equal_streams() {
    let data = "run run run run run run, walk".repeat(40);
    let first = gzip::compress(data.as_bytes()).unwrap();
    let second = gzip::compress(&data.as_bytes().to_vec()).unwrap();
    assert_eq!(first, second);
    assert_eq!(gzip::compress(b"").unwrap(), gzip::compress(&[]).unwrap());
    // Other data, another stream.
    assert_ne!(gzip::compress(b"a").unwrap(), gzip::compress(b"b").unwrap());
}

#[test]
fn the_stream_opens_with_the_fixed_header() {
    for data in [&b""[..], &b"x"[..], &[0u8; 300][..]] {
        let stream = gzip::compress(data).unwrap();
        // magic, deflate, no flags, no modification time
        assert_eq!(&stream[..8], &[0x1f, 0x8b, 0x08, 0x00, 0x00, 0x00, 0x00, 0x00]);
        // operating system: unknown
        assert_eq!(stream[9], 0xff);
    }
}
