use rome_map::codec::{encode, read, RasterDecodeError};
use rome_map::filter::RasterFilter;
use rome_map::raster::{Raster, RasterFormat};

fn sample_short_raster() -> Raster {
    let values: Vec<i16> = vec![
        0, 120, -3000, 32767, -32768, 17, 255, -1, 900, -900, 4096, 5, -5, 12345, -12345, 7,
    ];
    Raster::new(RasterFormat::Short(values), 4, 4)
}

fn sample_ubyte_raster() -> Raster {
    let values: Vec<u8> = vec![0, 1, 2, 3, 255, 254, 128, 127, 10, 20, 30, 40, 50, 60, 70, 80];
    Raster::new(RasterFormat::UByte(values), 4, 4)
}

fn sample_byte_raster() -> Raster {
    let values: Vec<i8> = vec![
        0, 1, -1, 127, -128, 5, -5, 100, -100, 64, -64, 2, -2, 33, -33, 77,
    ];
    Raster::new(RasterFormat::Byte(values), 4, 4)
}

fn assert_rasters_equal(a: &Raster, b: &Raster) {
    assert_eq!(a.width, b.width);
    assert_eq!(a.height, b.height);
    for y in 0..a.height {
        for x in 0..a.width {
            assert_eq!(a.get(x, y), b.get(x, y), "mismatch at ({}, {})", x, y);
        }
    }
}

fn filters() -> Vec<RasterFilter> {
    vec![
        RasterFilter::Plain,
        RasterFilter::Left,
        RasterFilter::Up,
        RasterFilter::Average,
        RasterFilter::Paeth,
    ]
}

#[test]
fn round_trip_short_all_filters() {
    for filter in filters() {
        let original = sample_short_raster();
        let bytes = encode(&original, filter).expect("encoding succeeds");
        let decoded = read(&bytes).expect("decoding succeeds");
        assert_rasters_equal(&original, &decoded);
    }
}

#[test]
fn round_trip_ubyte_all_filters() {
    for filter in filters() {
        let original = sample_ubyte_raster();
        let bytes = encode(&original, filter).expect("encoding succeeds");
        let decoded = read(&bytes).expect("decoding succeeds");
        assert_rasters_equal(&original, &decoded);
    }
}

#[test]
fn round_trip_byte_all_filters() {
    for filter in filters() {
        let original = sample_byte_raster();
        let bytes = encode(&original, filter).expect("encoding succeeds");
        let decoded = read(&bytes).expect("decoding succeeds");
        assert_rasters_equal(&original, &decoded);
    }
}

#[test]
fn chunk_partially_out_of_bounds_is_clipped() {
    // Encode a 4x4 tile whose single chunk covers the whole raster,
    // then move the chunk's declared origin two columns to the right:
    // only the chunk's first two columns still land inside the raster.
    let original = sample_ubyte_raster();
    let mut bytes = encode(&original, RasterFilter::Plain).expect("encoding succeeds");
    // The chunk's x field is the big-endian word right after the header
    // (16 signature + 1 version + 8 dimensions + 1 kind + 4 length).
    bytes[30] = 0;
    bytes[31] = 0;
    bytes[32] = 0;
    bytes[33] = 2;
    let decoded = read(&bytes).expect("decoding still succeeds");
    for y in 0..4u32 {
        for x in 0..4u32 {
            let expected = if x >= 2 { original.get(x - 2, y) } else { 0 };
            assert_eq!(decoded.get(x, y), expected, "pixel ({}, {})", x, y);
        }
    }
}

#[test]
fn chunk_fully_out_of_bounds_contributes_nothing() {
    let original = sample_ubyte_raster();
    let mut bytes = encode(&original, RasterFilter::Plain).expect("encoding succeeds");
    bytes[30] = 0;
    bytes[31] = 0;
    bytes[32] = 1;
    bytes[33] = 0;
    let decoded = read(&bytes).expect("decoding still succeeds");
    for y in 0..4u32 {
        for x in 0..4u32 {
            assert_eq!(decoded.get(x, y), 0);
        }
    }
}

#[test]
fn later_chunks_overwrite_earlier_ones() {
    // Append the chunk of a second stream to the first stream: both
    // chunks cover the full raster, so the second one's samples win.
    let first = sample_ubyte_raster();
    let second = {
        let values: Vec<u8> = (100..116).collect();
        Raster::new(RasterFormat::UByte(values), 4, 4)
    };
    let mut bytes = encode(&first, RasterFilter::Plain).expect("encoding succeeds");
    let second_bytes = encode(&second, RasterFilter::Paeth).expect("encoding succeeds");
    bytes.extend_from_slice(&second_bytes[26..]);
    let decoded = read(&bytes).expect("decoding succeeds");
    assert_rasters_equal(&second, &decoded);
}

#[test]
fn invalid_signature_is_reported_with_found_bytes() {
    let original = sample_ubyte_raster();
    let mut bytes = encode(&original, RasterFilter::Plain).expect("encoding succeeds");
    bytes[0] = b'X';
    match read(&bytes) {
        Err(RasterDecodeError::InvalidSignature(found)) => {
            assert_eq!(found[0], b'X');
            assert_eq!(&found[1..], &b"ERRARIUM/RASTER"[..]);
        },
        other => panic!("expected InvalidSignature, got {:?}", other.map(|_| ())),
    }
}

#[test]
fn unknown_version_is_rejected() {
    let original = sample_ubyte_raster();
    let mut bytes = encode(&original, RasterFilter::Plain).expect("encoding succeeds");
    bytes[16] = 7;
    match read(&bytes) {
        Err(RasterDecodeError::UnknownVersion(7)) => {},
        other => panic!("expected UnknownVersion(7), got {:?}", other.map(|_| ())),
    }
}

#[test]
fn unknown_sample_kind_is_rejected() {
    let original = sample_ubyte_raster();
    let mut bytes = encode(&original, RasterFilter::Plain).expect("encoding succeeds");
    bytes[25] = 9;
    match read(&bytes) {
        Err(RasterDecodeError::UnknownRasterFormat(9)) => {},
        other => panic!("expected UnknownRasterFormat(9), got {:?}", other.map(|_| ())),
    }
}

#[test]
fn truncated_stream_is_an_io_failure() {
    let original = sample_ubyte_raster();
    let bytes = encode(&original, RasterFilter::Plain).expect("encoding succeeds");
    let truncated = &bytes[..20];
    match read(truncated) {
        Err(RasterDecodeError::IoError) => {},
        other => panic!("expected IoError, got {:?}", other.map(|_| ())),
    }
}

#[test]
fn corrupt_chunk_payload_is_an_io_failure() {
    let original = sample_ubyte_raster();
    let mut bytes = encode(&original, RasterFilter::Plain).expect("encoding succeeds");
    let last = bytes.len() - 1;
    bytes[last] ^= 0xff;
    bytes[last - 1] ^= 0xff;
    match read(&bytes) {
        Err(RasterDecodeError::IoError) => {},
        Ok(_) => panic!("expected IoError, got a raster"),
        other => panic!("expected IoError, got {:?}", other.map(|_| ())),
    }
}

#[test]
fn average_filter_uses_truncating_division() {
    // reconstructed = raw + (a + b) / 2 with division rounding towards
    // zero, so a negative odd sum loses its half towards zero.
    let f = RasterFilter::Average;
    assert_eq!(f.apply(1, -3, 0, 0), 0); // 1 + (-3 / 2) = 1 + (-1)
    assert_eq!(f.apply(1, 3, 0, 0), 2); // 1 + (3 / 2) = 1 + 1
    assert_eq!(f.apply(0, -5, -4, 0), -4); // (-9) / 2 = -4
    assert_eq!(f.apply(10, 7, 8, 0), 17); // 15 / 2 = 7
}

#[test]
fn paeth_filter_prefers_a_then_b_then_c() {
    let f = RasterFilter::Paeth;
    // p = a + b - c; the candidate closest to p wins, ties go a, b, c.
    assert_eq!(f.apply(0, 5, 5, 3), 5); // da == db == 2 < dc: a wins the tie
    assert_eq!(f.apply(0, 1, 10, 1), 10); // p == 10: b is exact
    assert_eq!(f.apply(0, 9, 10, 10), 9); // p == 9: a is exact
    assert_eq!(f.apply(0, 2, 4, 3), 3); // p == 3: c is exact
    assert_eq!(f.apply(0, 6, 4, 10), 4); // p == 0: b is closest
    assert_eq!(f.apply(7, 0, 0, 0), 7); // all zero predictors
}
