use tunly::codec::{compress_body, decompress_body};

#[test]
fn test_compression_utils() {
    let large_data = "Tunly compression test ".repeat(100);
    let (b64, compressed) = compress_body(large_data.as_bytes());
    assert!(compressed, "Data should be compressed");

    let decompressed = decompress_body(&b64, compressed);
    assert_eq!(large_data.as_bytes(), decompressed.as_slice());
}

#[test]
fn test_no_compression_for_small_data() {
    let small_data = b"small data";
    let (b64, compressed) = compress_body(small_data);
    assert!(!compressed, "Small data should not be compressed");

    let decompressed = decompress_body(&b64, compressed);
    assert_eq!(small_data, decompressed.as_slice());
}

#[test]
fn empty_body_round_trip() {
    let (b64, compressed) = compress_body(b"");
    assert!(!compressed);
    assert_eq!(b64, "");
    assert_eq!(decompress_body(&b64, compressed), Vec::<u8>::new());
}

#[test]
fn threshold_boundary() {
    // One byte under the threshold is never compressed.
    let under = vec![7u8; 1023];
    let (_, c) = compress_body(&under);
    assert!(!c);

    // At the threshold a highly repetitive body compresses.
    let at = vec![7u8; 1024];
    let (b64, c) = compress_body(&at);
    assert!(c);
    assert_eq!(decompress_body(&b64, c), at);
}

#[test]
fn incompressible_large_body_stays_raw() {
    // A pseudo-random kilobyte-plus body that zlib cannot shrink.
    let mut data = Vec::new();
    let mut x: u64 = 0x9e3779b97f4a7c15;
    for _ in 0..2048 {
        x = x.wrapping_mul(6364136223846793005).wrapping_add(1442695040888963407);
        data.push((x >> 33) as u8);
    }
    let (b64, c) = compress_body(&data);
    // Whatever the compressor decided, decoding restores the input.
    assert_eq!(decompress_body(&b64, c), data);
}

#[test]
fn small_body_is_plain_base64() {
    let (b64, c) = compress_body(b"hi");
    assert!(!c);
    assert_eq!(b64, "aGk=");
}

#[test]
fn invalid_base64_decodes_to_nothing() {
    assert_eq!(decompress_body("!!!not base64!!!", false), Vec::<u8>::new());
}

#[test]
fn corrupt_compressed_body_falls_back_to_raw() {
    // "aGk=" decodes to b"hi", which is not a zlib stream; the decoder
    // falls back to the raw decoded bytes.
    assert_eq!(decompress_body("aGk=", true), b"hi".to_vec());
}
