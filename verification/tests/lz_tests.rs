use compressor::lz;
use compressor::CodecError;

#[test]
fn test_lz_roundtrip() {
    let input = b"ABABABABABAB";
    let compressed = lz::compress(&input.to_vec());
    let decompressed = lz::decompress(&compressed).unwrap();
    assert_eq!(input, decompressed.as_slice());
}

#[test]
fn test_lz_empty() {
    let input = b"";
    let compressed = lz::compress(&input.to_vec());
    assert!(compressed.is_empty());
    let decompressed = lz::decompress(&compressed).unwrap();
    assert!(decompressed.is_empty());
}

#[test]
fn test_lz_single_byte() {
    let input = b"A";
    let compressed = lz::compress(&input.to_vec());
    let decompressed = lz::decompress(&compressed).unwrap();
    assert_eq!(input, decompressed.as_slice());
}

#[test]
fn test_lz_non_repeating() {
    let input = b"ABCDEFGHIJKLMNOPQRSTUVWXYZ";
    let compressed = lz::compress(&input.to_vec());
    let decompressed = lz::decompress(&compressed).unwrap();
    assert_eq!(input, decompressed.as_slice());
}

#[test]
fn test_lz_mixed_data() {
    let input = b"ABCABCABCXYZXYZXYZ123123123";
    let compressed = lz::compress(&input.to_vec());
    let decompressed = lz::decompress(&compressed).unwrap();
    assert_eq!(input, decompressed.as_slice());
}

#[test]
fn test_lz_invalid_token() {
    let invalid_data = vec![0x02]; // Invalid token type
    let result = lz::decompress(&invalid_data);
    assert!(result.is_err());
}

#[test]
fn test_lz_incomplete_match() {
    let invalid_data = vec![0x01, 0x01]; // Missing length
    let result = lz::decompress(&invalid_data);
    assert!(result.is_err());
}

#[test]
fn test_lz_invalid_offset() {
    let invalid_data = vec![0x01, 0x05, 0x01]; // Offset 5 with empty output
    let result = lz::decompress(&invalid_data);
    assert!(result.is_err());
}

#[test]
fn test_lz_error_kinds() {
    assert_eq!(lz::decompress(&vec![0x02]), Err(CodecError::UnknownToken));
    assert_eq!(lz::decompress(&vec![0x01, 0x01]), Err(CodecError::TruncatedMatch));
    assert_eq!(lz::decompress(&vec![0x01, 0x05, 0x01]), Err(CodecError::InvalidDistance));
    assert_eq!(lz::decompress(&vec![0x00]), Err(CodecError::TruncatedLiteral));
}

#[test]
fn test_lz_overlapping_match_tokens() {
    // "AB" then a match of length 10 at distance 2: the copy overlaps the
    // bytes it writes, cycling the last two bytes forward.
    let input = b"ABABABABABAB";
    let compressed = lz::compress(&input.to_vec());
    assert_eq!(compressed, vec![0x00, b'A', 0x00, b'B', 0x01, 2, 10]);
}

#[test]
fn test_lz_non_repeating_all_literals() {
    // No match ever exceeds two bytes, so every byte costs one literal token.
    let input = b"ABCDEFGHIJKLMNOPQRSTUVWXYZ";
    let compressed = lz::compress(&input.to_vec());
    assert_eq!(compressed.len(), 2 * input.len());
    for (i, &b) in input.iter().enumerate() {
        assert_eq!(compressed[2 * i], 0x00);
        assert_eq!(compressed[2 * i + 1], b);
    }
}

#[test]
fn test_lz_decode_overlap_by_hand() {
    // One literal, then a match reaching one byte back for three bytes.
    let encoded = vec![0x00, b'A', 0x01, 1, 3];
    let decompressed = lz::decompress(&encoded).unwrap();
    assert_eq!(decompressed, b"AAAA".to_vec());
}

#[test]
fn test_lz_zero_distance() {
    // A zero-distance match has no byte to copy from: rejected when it asks
    // for output, accepted as an empty no-op.
    assert_eq!(lz::decompress(&vec![0x01, 0, 1]), Err(CodecError::InvalidDistance));
    assert_eq!(lz::decompress(&vec![0x01, 0, 0]), Ok(Vec::new()));
}

#[test]
fn test_lz_long_run_match_cap() {
    // A run of 300 equal bytes: one literal, then matches capped at 255.
    // The second match ties at every candidate and the oldest wins, so its
    // distance is the full window.
    let input = vec![b'Z'; 300];
    let compressed = lz::compress(&input);
    assert_eq!(compressed, vec![0x00, b'Z', 0x01, 1, 255, 0x01, 20, 44]);
    let decompressed = lz::decompress(&compressed).unwrap();
    assert_eq!(input, decompressed);
}
