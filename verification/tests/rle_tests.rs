use ascii_codec::compressor::rle;
use ascii_codec::compressor::rle::{CompressedGrid, CompressionError, RleEntry};
use ascii_codec::converter::ascii_pixel::AsciiPixel;

// Helper function to create test ASCII grids
fn create_test_grid(width: usize, height: usize, pattern: &str) -> Vec<Vec<AsciiPixel>> {
    let chars: Vec<char> = pattern.chars().collect();
    let mut grid = Vec::new();

    for row in 0..height {
        let mut current_row = Vec::new();
        for col in 0..width {
            let char_index = (row * width + col) % chars.len();
            current_row.push(AsciiPixel {
                ch: chars[char_index],
                rgb: None,
            });
        }
        grid.push(current_row);
    }
    grid
}

// Helper to create a specific colored grid for testing
fn create_specific_colored_grid(pixels: Vec<(char, Option<[u8; 3]>)>) -> Vec<Vec<AsciiPixel>> {
    let mut grid = Vec::new();
    let mut row = Vec::new();

    for (ch, rgb) in pixels {
        row.push(AsciiPixel { ch, rgb });
    }
    grid.push(row);
    grid
}

fn plain(ch: char) -> AsciiPixel {
    AsciiPixel { ch, rgb: None }
}

fn run(count: u32, ch: char) -> RleEntry {
    RleEntry { count, pixel: plain(ch) }
}

#[test]
fn test_rle_simple_compression() {
    let grid = create_test_grid(10, 1, "AAABBBCCCC");
    let compressed = rle::compress_ascii_grid(&grid).expect("Compression should succeed");

    // Verify the compressed format
    assert_eq!(compressed.width, 10);
    assert_eq!(compressed.height, 1);
    assert_eq!(compressed.has_color, false);
    assert_eq!(compressed.rows.len(), 1);

    let first_row = &compressed.rows[0];
    assert_eq!(first_row.len(), 3, "Should have 3 RLE entries");

    // First entry: 3 A's
    assert_eq!(first_row[0].count, 3);
    assert_eq!(first_row[0].pixel.ch, 'A');
    assert_eq!(first_row[0].pixel.rgb, None);

    // Second entry: 3 B's
    assert_eq!(first_row[1].count, 3);
    assert_eq!(first_row[1].pixel.ch, 'B');
    assert_eq!(first_row[1].pixel.rgb, None);

    // Third entry: 4 C's
    assert_eq!(first_row[2].count, 4);
    assert_eq!(first_row[2].pixel.ch, 'C');
    assert_eq!(first_row[2].pixel.rgb, None);

    // Verify the original grid can be reconstructed
    let decompressed =
        rle::decompress_ascii_grid(&compressed).expect("Decompression should succeed");
    assert_eq!(decompressed, grid, "Decompressed grid should match original grid");
}

#[test]
fn test_rle_format_no_compression() {
    let grid = create_test_grid(6, 1, "ABCDEF");
    let compressed = rle::compress_ascii_grid(&grid).expect("Compression should succeed");

    let first_row = &compressed.rows[0];
    assert_eq!(first_row.len(), 6, "Should have 6 RLE entries");

    let expected_chars = ['A', 'B', 'C', 'D', 'E', 'F'];
    for (i, entry) in first_row.iter().enumerate() {
        assert_eq!(entry.count, 1);
        assert_eq!(entry.pixel.ch, expected_chars[i]);
        assert_eq!(entry.pixel.rgb, None);
    }

    // Verify the original grid can be reconstructed
    let decompressed =
        rle::decompress_ascii_grid(&compressed).expect("Decompression should succeed");
    assert_eq!(decompressed, grid, "Decompressed grid should match original grid");
}

#[test]
fn test_rle_format_single_character() {
    // Test: 10 A's should compress to [(10, 'A')]
    let grid = create_test_grid(10, 1, "A");
    let compressed = rle::compress_ascii_grid(&grid).expect("Compression should succeed");

    let first_row = &compressed.rows[0];
    assert_eq!(first_row.len(), 1, "Should have 1 RLE entry");
    assert_eq!(first_row[0].count, 10);
    assert_eq!(first_row[0].pixel.ch, 'A');
    assert_eq!(first_row[0].pixel.rgb, None);

    // Verify the original grid can be reconstructed
    let decompressed =
        rle::decompress_ascii_grid(&compressed).expect("Decompression should succeed");
    assert_eq!(decompressed, grid, "Decompressed grid should match original grid");
}

#[test]
fn test_rle_format_multiple_rows() {
    // Test 2 rows: first row "AAA", second row "BBB"
    let grid = create_test_grid(3, 2, "AAABBB");
    let compressed = rle::compress_ascii_grid(&grid).expect("Compression should succeed");

    assert_eq!(compressed.rows.len(), 2);

    // First row: 3 A's
    assert_eq!(compressed.rows[0].len(), 1);
    assert_eq!(compressed.rows[0][0].count, 3);
    assert_eq!(compressed.rows[0][0].pixel.ch, 'A');

    // Second row: 3 B's
    assert_eq!(compressed.rows[1].len(), 1);
    assert_eq!(compressed.rows[1][0].count, 3);
    assert_eq!(compressed.rows[1][0].pixel.ch, 'B');

    // Verify the original grid can be reconstructed
    let decompressed =
        rle::decompress_ascii_grid(&compressed).expect("Decompression should succeed");
    assert_eq!(decompressed, grid, "Decompressed grid should match original grid");
}

#[test]
fn test_rle_format_with_colors() {
    let red = [255, 0, 0];
    let blue = [0, 0, 255];

    // Row: Red A, Red A, Blue B, Blue B
    let grid = create_specific_colored_grid(vec![
        ('A', Some(red)),
        ('A', Some(red)),
        ('B', Some(blue)),
        ('B', Some(blue)),
    ]);

    let compressed = rle::compress_ascii_grid(&grid).expect("Compression should succeed");

    assert_eq!(compressed.has_color, true);
    assert_eq!(compressed.rows[0].len(), 2);

    // First entry: 2 red A's
    assert_eq!(compressed.rows[0][0].count, 2);
    assert_eq!(compressed.rows[0][0].pixel.ch, 'A');
    assert_eq!(compressed.rows[0][0].pixel.rgb, Some(red));

    // Second entry: 2 blue B's
    assert_eq!(compressed.rows[0][1].count, 2);
    assert_eq!(compressed.rows[0][1].pixel.ch, 'B');
    assert_eq!(compressed.rows[0][1].pixel.rgb, Some(blue));
}

#[test]
fn test_rle_format_mixed_colors() {
    let red = [255, 0, 0];

    // Row: Red A, Red A, Uncolored A, Uncolored A
    // Should NOT compress across color boundaries
    let grid = create_specific_colored_grid(vec![
        ('A', Some(red)),
        ('A', Some(red)),
        ('A', None),
        ('A', None),
    ]);

    let compressed = rle::compress_ascii_grid(&grid).expect("Compression should succeed");

    assert_eq!(
        compressed.rows[0].len(),
        2,
        "Should have 2 entries (not compressed across color boundary)"
    );

    // First entry: 2 red A's
    assert_eq!(compressed.rows[0][0].count, 2);
    assert_eq!(compressed.rows[0][0].pixel.ch, 'A');
    assert_eq!(compressed.rows[0][0].pixel.rgb, Some(red));

    // Second entry: 2 uncolored A's
    assert_eq!(compressed.rows[0][1].count, 2);
    assert_eq!(compressed.rows[0][1].pixel.ch, 'A');
    assert_eq!(compressed.rows[0][1].pixel.rgb, None);
}

#[test]
fn test_rle_format_empty_grid() {
    let grid: Vec<Vec<AsciiPixel>> = vec![];
    let compressed = rle::compress_ascii_grid(&grid).expect("Compression should succeed");

    assert_eq!(compressed.width, 0);
    assert_eq!(compressed.height, 0);
    assert_eq!(compressed.rows.len(), 0);
    assert_eq!(compressed.has_color, false);
}

#[test]
fn test_rle_format_alternating_pattern() {
    // Test: "ABABAB" should compress to [(1, 'A'), (1, 'B'), (1, 'A'), (1, 'B'), (1, 'A'), (1, 'B')]
    let grid = create_test_grid(6, 1, "ABABAB");
    let compressed = rle::compress_ascii_grid(&grid).expect("Compression should succeed");

    let first_row = &compressed.rows[0];
    assert_eq!(first_row.len(), 6, "Alternating pattern should not compress");

    for (i, entry) in first_row.iter().enumerate() {
        assert_eq!(entry.count, 1);
        assert_eq!(entry.pixel.ch, if i % 2 == 0 { 'A' } else { 'B' });
    }
}

#[test]
fn test_rle_compression_efficiency() {
    // Test that RLE actually reduces the number of entries
    let grid = create_test_grid(100, 1, "A");
    let compressed = rle::compress_ascii_grid(&grid).expect("Compression should succeed");

    // 100 identical characters should compress to 1 entry
    assert_eq!(compressed.rows[0].len(), 1);
    assert_eq!(compressed.rows[0][0].count, 100);

    // Verify round-trip works
    let decompressed =
        rle::decompress_ascii_grid(&compressed).expect("Decompression should succeed");
    assert_eq!(grid, decompressed);
}

#[test]
fn test_rle_large_count() {
    // Test with very large run lengths
    let grid = create_test_grid(10000, 1, "X");
    let compressed = rle::compress_ascii_grid(&grid).expect("Compression should succeed");

    assert_eq!(compressed.rows[0].len(), 1);
    assert_eq!(compressed.rows[0][0].count, 10000);
    assert_eq!(compressed.rows[0][0].pixel.ch, 'X');
}

#[test]
fn compress_test_empty_grid() {
    let grid = vec![];
    let compressed = rle::compress_grid(&grid).unwrap();
    assert_eq!(compressed.width, 0);
    assert_eq!(compressed.height, 0);
    assert_eq!(compressed.rows.len(), 0);
}

#[test]
fn test_single_pixel() {
    let grid = vec![vec![AsciiPixel { ch: 'A', rgb: None }]];
    let compressed = rle::compress_grid(&grid).unwrap();
    assert_eq!(compressed.width, 1);
    assert_eq!(compressed.height, 1);
    assert_eq!(compressed.rows[0].len(), 1);
    assert_eq!(compressed.rows[0][0].count, 1);
    assert_eq!(compressed.rows[0][0].pixel.ch, 'A');
}

#[test]
fn decompress_test_empty_grid() {
    let compressed = CompressedGrid::new(0, 0, false);
    let decompressed = rle::decompress_grid(&compressed).unwrap();
    assert_eq!(decompressed.len(), 0);
}

#[test]
fn test_roundtrip_compression() {
    let original = vec![
        vec![
            AsciiPixel { ch: 'A', rgb: None },
            AsciiPixel { ch: 'A', rgb: None },
            AsciiPixel { ch: 'B', rgb: None },
        ],
        vec![
            AsciiPixel { ch: 'C', rgb: None },
            AsciiPixel { ch: 'C', rgb: None },
            AsciiPixel { ch: 'C', rgb: None },
        ],
    ];

    let compressed = rle::compress_grid(&original).unwrap();
    let decompressed = rle::decompress_grid(&compressed).unwrap();

    assert_eq!(original, decompressed);
}

#[test]
fn test_invalid_count() {
    let mut compressed = CompressedGrid::new(1, 1, false);
    compressed.rows.push(vec![RleEntry {
        count: 0,
        pixel: AsciiPixel { ch: 'A', rgb: None },
    }]);

    assert!(rle::decompress_grid(&compressed).is_err());
}

#[test]
fn new_grid_declares_its_size_and_holds_no_row() {
    let grid = CompressedGrid::new(7, 3, true);
    assert_eq!(grid.width, 7);
    assert_eq!(grid.height, 3);
    assert_eq!(grid.has_color, true);
    assert!(grid.rows.is_empty());
}

#[test]
fn pixels_are_equal_only_with_the_same_character_and_colour() {
    let red = AsciiPixel { ch: 'A', rgb: Some([255, 0, 0]) };
    let also_red = AsciiPixel { ch: 'A', rgb: Some([255, 0, 0]) };
    let nearly_red = AsciiPixel { ch: 'A', rgb: Some([255, 0, 1]) };
    let green = AsciiPixel { ch: 'A', rgb: Some([0, 255, 0]) };
    assert!(rle::pixels_equal(&red, &also_red));
    assert!(rle::pixels_equal(&plain('A'), &plain('A')));
    assert!(!rle::pixels_equal(&red, &nearly_red));
    assert!(!rle::pixels_equal(&red, &green));
    assert!(!rle::pixels_equal(&red, &plain('A')));
    assert!(!rle::pixels_equal(&plain('A'), &red));
    assert!(!rle::pixels_equal(&plain('A'), &plain('B')));
    assert!(!rle::pixels_equal(&red, &AsciiPixel { ch: 'B', rgb: Some([255, 0, 0]) }));
}

#[test]
fn row_compression_gives_the_runs_in_order() {
    let row: Vec<AsciiPixel> = "aabccc".chars().map(plain).collect();
    assert_eq!(rle::compress_row(&row), vec![run(2, 'a'), run(1, 'b'), run(3, 'c')]);
    assert_eq!(rle::compress_row(&[]), vec![]);
    assert_eq!(rle::compress_row(&[plain('z')]), vec![run(1, 'z')]);
}

#[test]
fn runs_with_a_gap_between_them_are_not_joined() {
    let row: Vec<AsciiPixel> = "aabaa".chars().map(plain).collect();
    assert_eq!(rle::compress_row(&row), vec![run(2, 'a'), run(1, 'b'), run(2, 'a')]);
}

#[test]
fn no_run_of_an_encoding_is_empty() {
    let grid = create_test_grid(37, 5, "AAB  CCCC#");
    let compressed = rle::compress_grid(&grid).unwrap();
    for row in &compressed.rows {
        assert!(!row.is_empty());
        let mut total: u64 = 0;
        for entry in row {
            assert!(entry.count >= 1);
            total += entry.count as u64;
        }
        assert_eq!(total, 37);
    }
}

#[test]
fn colour_in_any_row_sets_the_flag() {
    let mut grid = create_test_grid(4, 3, "AB");
    assert_eq!(rle::compress_grid(&grid).unwrap().has_color, false);
    assert!(!rle::grid_has_color(&grid));
    grid[2][3].rgb = Some([0, 0, 0]);
    assert_eq!(rle::compress_grid(&grid).unwrap().has_color, true);
    assert!(rle::grid_has_color(&grid));
    assert!(!rle::row_has_color(&grid[0]));
    assert!(rle::row_has_color(&grid[2]));
}

#[test]
fn rows_without_cells_encode_to_rows_without_runs() {
    let grid: Vec<Vec<AsciiPixel>> = vec![vec![], vec![], vec![]];
    let compressed = rle::compress_grid(&grid).unwrap();
    assert_eq!(compressed.width, 0);
    assert_eq!(compressed.height, 3);
    assert_eq!(compressed.has_color, false);
    assert_eq!(compressed.rows, vec![vec![], vec![], vec![]]);
    // A frame of width 0 decodes to the empty frame.
    assert_eq!(rle::decompress_grid(&compressed).unwrap(), Vec::<Vec<AsciiPixel>>::new());
}

#[test]
fn ragged_grid_takes_its_width_from_the_first_row() {
    let grid = vec![vec![plain('a'), plain('a')], vec![plain('b')]];
    let compressed = rle::compress_grid(&grid).unwrap();
    assert_eq!(compressed.width, 2);
    assert_eq!(compressed.height, 2);
    assert_eq!(compressed.rows, vec![vec![run(2, 'a')], vec![run(1, 'b')]]);
    assert_eq!(
        rle::decompress_grid(&compressed),
        Err(CompressionError::RowLengthMismatch { row_index: 1, actual: 1, expected: 2 })
    );
}

#[test]
fn round_trip_of_mixed_coloured_and_plain_runs() {
    let red = Some([255, 0, 0]);
    let grid = vec![
        vec![
            AsciiPixel { ch: 'A', rgb: red },
            AsciiPixel { ch: 'A', rgb: None },
            AsciiPixel { ch: 'A', rgb: None },
        ],
        vec![
            AsciiPixel { ch: 'A', rgb: None },
            AsciiPixel { ch: 'A', rgb: red },
            AsciiPixel { ch: 'B', rgb: red },
        ],
    ];
    let compressed = rle::compress_grid(&grid).unwrap();
    assert_eq!(compressed.rows[0].len(), 2);
    assert_eq!(compressed.rows[1].len(), 3);
    assert_eq!(rle::decompress_grid(&compressed).unwrap(), grid);
}

#[test]
fn row_decompression_writes_out_each_run() {
    let row = rle::decompress_row(&[run(2, 'x'), run(1, 'y')]).unwrap();
    assert_eq!(row, vec![plain('x'), plain('x'), plain('y')]);
    assert_eq!(rle::decompress_row(&[]).unwrap(), vec![]);
    assert_eq!(
        rle::decompress_row(&[run(2, 'x'), run(0, 'y')]),
        Err(CompressionError::ZeroCountEntry)
    );
}

#[test]
fn decode_rejects_a_row_of_the_wrong_length() {
    let mut compressed = CompressedGrid::new(10, 1, false);
    compressed.rows.push(vec![run(3, 'A'), run(3, 'B')]);
    assert_eq!(
        rle::decompress_grid(&compressed),
        Err(CompressionError::RowLengthMismatch { row_index: 0, actual: 6, expected: 10 })
    );
}

#[test]
fn decode_rejects_a_wrong_number_of_rows() {
    let mut compressed = CompressedGrid::new(2, 3, false);
    compressed.rows.push(vec![run(2, 'A')]);
    compressed.rows.push(vec![run(1, 'A'), run(1, 'B')]);
    assert_eq!(
        rle::decompress_grid(&compressed),
        Err(CompressionError::RowCountMismatch { actual: 2, expected: 3 })
    );
    let no_rows = CompressedGrid::new(2, 3, false);
    assert_eq!(
        rle::decompress_grid(&no_rows),
        Err(CompressionError::RowCountMismatch { actual: 0, expected: 3 })
    );
}

#[test]
fn decode_rejects_a_run_without_repetitions() {
    let mut compressed = CompressedGrid::new(2, 1, false);
    compressed.rows.push(vec![run(2, 'A'), run(0, 'B')]);
    assert_eq!(rle::decompress_grid(&compressed), Err(CompressionError::ZeroCountEntry));
}

#[test]
fn the_first_faulty_row_decides_the_error() {
    let mut compressed = CompressedGrid::new(2, 1, false);
    compressed.rows.push(vec![run(2, 'A')]);
    compressed.rows.push(vec![run(3, 'B')]);
    compressed.rows.push(vec![run(0, 'C')]);
    assert_eq!(
        rle::decompress_grid(&compressed),
        Err(CompressionError::RowLengthMismatch { row_index: 1, actual: 3, expected: 2 })
    );
    compressed.rows[1] = vec![run(1, 'B'), run(0, 'B'), run(1, 'B')];
    assert_eq!(rle::decompress_grid(&compressed), Err(CompressionError::ZeroCountEntry));
}

#[test]
fn a_grid_without_width_or_height_decodes_to_nothing_unchecked() {
    let mut flat = CompressedGrid::new(0, 2, false);
    flat.rows.push(vec![run(0, 'A')]);
    assert_eq!(rle::decompress_grid(&flat).unwrap(), Vec::<Vec<AsciiPixel>>::new());
    let mut low = CompressedGrid::new(5, 0, true);
    low.rows.push(vec![run(1, 'A')]);
    assert_eq!(rle::decompress_grid(&low).unwrap(), Vec::<Vec<AsciiPixel>>::new());
}

#[test]
fn runs_that_are_neither_empty_nor_splittable_encode_to_themselves() {
    let runs = vec![run(3, 'a'), run(1, 'b'), run(2, 'a'), run(5, ' ')];
    let row = rle::decompress_row(&runs).unwrap();
    assert_eq!(row.len(), 11);
    assert_eq!(rle::compress_row(&row), runs);
    // Runs that could be one run are joined.
    let split = vec![run(3, 'a'), run(2, 'a')];
    let row = rle::decompress_row(&split).unwrap();
    assert_eq!(rle::compress_row(&row), vec![run(5, 'a')]);
}

#[test]
fn a_grid_that_keeps_its_structure_decodes_to_its_rows_written_out() {
    let mut compressed = CompressedGrid::new(3, 2, false);
    compressed.rows.push(vec![run(3, 'x')]);
    compressed.rows.push(vec![run(1, 'y'), run(2, 'y')]);
    assert_eq!(
        rle::decompress_grid(&compressed).unwrap(),
        vec![vec![plain('x'); 3], vec![plain('y'); 3]]
    );
}
