use lc_lz2::compress;
use lc_lz2::decompress;
use lc_lz2::DecompressionError;

/// The byte pattern the compressor tests use: a 512-byte sequence with no
/// run, word, incrementing or back-reference structure worth encoding.
fn noise_block() -> Vec<u8> {
    let mut out: Vec<u8> = Vec::new();
    let mut x: u8 = 1;
    for _ in 0..256 {
        out.push(x);
        out.push(x.wrapping_sub(1));
        x = x.wrapping_add(3);
    }
    out
}

#[test]
fn test_decompress() {
    assert_eq!(decompress(&[0x3, 1, 2, 3, 4, 0xFF]), Ok(vec![1, 2, 3, 4]));
    assert_eq!(
        decompress(&[0x23, 0xAA, 0xFF]),
        Ok(vec![0xAA, 0xAA, 0xAA, 0xAA])
    );
    assert_eq!(
        decompress(&[0x43, 0xAA, 0x55, 0xFF]),
        Ok(vec![0xAA, 0x55, 0xAA, 0x55])
    );
    assert_eq!(decompress(&[0x63, 1, 0xFF]), Ok(vec![1, 2, 3, 4]));

    assert_eq!(
        decompress(&[0x2, 1, 2, 3, 0x85, 0x00, 0x00, 0xFF]),
        Ok(vec![1, 2, 3, 1, 2, 3, 1, 2, 3])
    );
    assert_eq!(
        decompress(&[0x2, 1, 2, 3, 0xA5, 0x00, 0x00, 0xFF]),
        Ok(vec![1, 2, 3, 254, 253, 252, 1, 2, 3])
    );
    assert_eq!(
        decompress(&[0x2, 1, 2, 3, 0xC5, 0x03, 0xFF]),
        Ok(vec![1, 2, 3, 1, 2, 3, 1, 2, 3])
    );
    assert_eq!(
        decompress(&[0x2, 1, 2, 3, 0xFC, 0x5, 0x03, 0xFF]),
        Ok(vec![1, 2, 3, 254, 253, 252, 1, 2, 3])
    );

    let mut cycled: Vec<u8> = Vec::new();
    for k in 0..1026 {
        cycled.push([1, 2, 3][k % 3]);
    }
    assert_eq!(
        decompress(&[0x2, 1, 2, 3, 0xFB, 0xFE, 0x3, 0xFF]),
        Ok(cycled)
    );
}

#[test]
fn test_compress() {
    assert_eq!(compress(&[0, 2, 4, 6]), vec![0x03, 0, 2, 4, 6, 0xFF]);
    assert_eq!(compress(&[1, 1, 1, 1]), vec![0x23, 1, 0xFF]);
    assert_eq!(compress(&[1, 2, 1, 2, 1, 2]), vec![0x45, 1, 2, 0xFF]);
    assert_eq!(compress(&[1, 2, 1, 2, 1]), vec![0x44, 1, 2, 0xFF]);
    assert_eq!(compress(&[1, 2, 3, 4]), vec![0x63, 1, 0xFF]);

    assert_eq!(
        compress(&[1, 2, 3, 4, 1, 2, 3, 4, 1, 2, 3, 4]),
        vec![0x63, 1, 0xC7, 0x4, 0xFF]
    );

    // a relative inverted backreference can only be encoded as an extended command
    assert_eq!(
        compress(&[1, 2, 3, 4, 254, 253, 252, 251, 1, 2, 3, 4]),
        vec![0x63, 1, 0xFC, 0x07, 0x4, 0xFF]
    );

    // a 512-byte-long non-compressible sequence, twice: one long Copy block,
    // then one absolute backreference to its start
    let noise = noise_block();
    let mut input = noise.clone();
    input.extend_from_slice(&noise);
    let mut expected: Vec<u8> = vec![0xE1, 0xFF];
    expected.extend_from_slice(&noise);
    expected.extend_from_slice(&[0xF1, 0xFF, 0x00, 0x00, 0xFF]);
    assert_eq!(compress(&input), expected);
}

#[test]
fn test_roundtrip_green_brinstar() {
    // A stand-in for a compressed level sample: a few kilobytes mixing flat
    // runs, ramps, repeated structure and noise, taken through a full
    // decompress-recompress-decompress cycle.
    let mut raw: Vec<u8> = Vec::new();
    for _ in 0..600 {
        raw.push(0x1F);
    }
    for k in 0..600u32 {
        raw.push((k % 256) as u8);
    }
    let mut lcg: u32 = 0x0001_2343;
    for _ in 0..1200 {
        lcg = lcg.wrapping_mul(1103515245).wrapping_add(12345);
        raw.push((lcg >> 16) as u8);
    }
    let chunk: Vec<u8> = raw[500..900].to_vec();
    for _ in 0..3 {
        raw.extend_from_slice(&chunk);
    }
    let data = compress(&raw);

    let decompressed = decompress(&data).unwrap();
    let recompressed = compress(&decompressed);
    let redecompressed = decompress(&recompressed).unwrap();

    assert_eq!(decompressed, redecompressed);
}

#[test]
fn roundtrip_small_inputs() {
    let cases: Vec<Vec<u8>> = vec![
        vec![],
        vec![0],
        vec![0xFF],
        vec![1, 2, 3, 4],
        vec![7; 1000],
        vec![1, 2, 3, 4, 1, 2, 3, 4, 1, 2, 3, 4],
        vec![1, 2, 3, 4, 254, 253, 252, 251, 1, 2, 3, 4],
    ];
    for x in cases {
        assert_eq!(decompress(&compress(&x)), Ok(x));
    }
}

#[test]
fn roundtrip_long_literal_run() {
    // More than MAX_LEN bytes with nothing worth encoding: the literal run
    // must be split across Copy blocks and still round-trip.
    let mut x = noise_block();
    let mut lcg: u32 = 0x00AB_CDEF;
    for _ in 0..800 {
        lcg = lcg.wrapping_mul(1103515245).wrapping_add(12345);
        x.push((lcg >> 16) as u8);
    }
    assert_eq!(decompress(&compress(&x)), Ok(x));
}

#[test]
fn compress_is_stop_terminated() {
    // The empty input compresses to just the stop byte; every output ends
    // with it and the decoder consumes the whole stream.
    assert_eq!(compress(&[]), vec![0xFF]);
    let samples: Vec<Vec<u8>> = vec![
        vec![9],
        vec![1, 1, 1, 1, 1, 1],
        noise_block(),
    ];
    for x in samples {
        let y = compress(&x);
        assert!(!y.is_empty());
        assert_eq!(y[y.len() - 1], 0xFF);
        // nothing follows the stop byte: appending garbage after it does
        // not change the result, truncating it does
        let mut longer = y.clone();
        longer.push(0x77);
        assert_eq!(decompress(&longer), Ok(x));
    }
}

#[test]
fn wordfill_keeps_partial_trailing_byte() {
    assert_eq!(decompress(&[0x44, 0xAA, 0x55, 0xFF]), Ok(vec![0xAA, 0x55, 0xAA, 0x55, 0xAA]));
}

#[test]
fn incrementing_wraps_around() {
    assert_eq!(decompress(&[0x63, 0xFE, 0xFF]), Ok(vec![0xFE, 0xFF, 0x00, 0x01]));
}

#[test]
fn truncated_input_is_unexpected_eof() {
    // empty input: no header at all
    assert_eq!(decompress(&[]), Err(DecompressionError::UnexpectedEof));
    // missing stop byte
    assert_eq!(decompress(&[0x23, 0xAA]), Err(DecompressionError::UnexpectedEof));
    // truncated mid-header: long form with no second byte
    assert_eq!(decompress(&[0xE1]), Err(DecompressionError::UnexpectedEof));
    // truncated mid-payload: Copy promising 4 bytes, WordFill missing its
    // high byte, ByteFill missing its byte, Absolute missing half its index
    assert_eq!(decompress(&[0x03, 1, 2]), Err(DecompressionError::UnexpectedEof));
    assert_eq!(decompress(&[0x43, 0xAA]), Err(DecompressionError::UnexpectedEof));
    assert_eq!(decompress(&[0x23]), Err(DecompressionError::UnexpectedEof));
    assert_eq!(decompress(&[0x83, 0x00]), Err(DecompressionError::UnexpectedEof));
}

#[test]
fn bad_window_is_out_of_range() {
    // relative offset larger than the output produced so far
    assert_eq!(
        decompress(&[0x2, 1, 2, 3, 0xC0, 0x09, 0xFF]),
        Err(DecompressionError::WindowOutOfRange)
    );
    // relative offset zero is never valid
    assert_eq!(
        decompress(&[0x2, 1, 2, 3, 0xC0, 0x00, 0xFF]),
        Err(DecompressionError::WindowOutOfRange)
    );
    // absolute index at or past the output end
    assert_eq!(
        decompress(&[0x2, 1, 2, 3, 0x80, 0x03, 0x00, 0xFF]),
        Err(DecompressionError::WindowOutOfRange)
    );
    // any backreference into an empty output
    assert_eq!(
        decompress(&[0x80, 0x00, 0x00, 0xFF]),
        Err(DecompressionError::WindowOutOfRange)
    );
}

#[test]
fn overlap_copy_duplicates_tail() {
    // offset 2, length 7: the last two bytes repeat cyclically
    assert_eq!(
        decompress(&[0x01, 0xAB, 0xCD, 0xC6, 0x02, 0xFF]),
        Ok(vec![0xAB, 0xCD, 0xAB, 0xCD, 0xAB, 0xCD, 0xAB, 0xCD, 0xAB])
    );
}
