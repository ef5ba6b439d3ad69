use compressor::rle;
use compressor::CodecError;

#[test]
fn test_rle_roundtrip() {
    let input = b"AAABBBCCCCCDDDDE";
    let compressed = rle::compress(&input.to_vec());
    let decompressed = rle::decompress(&compressed).unwrap();
    assert_eq!(input, decompressed.as_slice());
}

#[test]
fn test_rle_empty() {
    let input = b"";
    let compressed = rle::compress(&input.to_vec());
    assert!(compressed.is_empty());
    let decompressed = rle::decompress(&compressed).unwrap();
    assert!(decompressed.is_empty());
}

#[test]
fn test_rle_single_byte() {
    let input = b"A";
    let compressed = rle::compress(&input.to_vec());
    let decompressed = rle::decompress(&compressed).unwrap();
    assert_eq!(input, decompressed.as_slice());
}

#[test]
fn test_rle_max_run() {
    let input = vec![b'A'; 255];
    let compressed = rle::compress(&input);
    let decompressed = rle::decompress(&compressed).unwrap();
    assert_eq!(input, decompressed);
}

#[test]
fn test_rle_invalid_format() {
    let invalid_data = vec![1, 2, 3]; // Not a multiple of 2
    let result = rle::decompress(&invalid_data);
    assert!(result.is_err());
}

#[test]
fn test_rle_invalid_format_kind() {
    let invalid_data = vec![1, 2, 3];
    assert_eq!(rle::decompress(&invalid_data), Err(CodecError::MalformedInput));
}

#[test]
fn test_rle_exact_pairs() {
    let input = b"AAABBBCCCCCDDDDE";
    let compressed = rle::compress(&input.to_vec());
    assert_eq!(compressed, vec![3, b'A', 3, b'B', 5, b'C', 4, b'D', 1, b'E']);
}

#[test]
fn test_rle_max_run_single_pair() {
    let input = vec![b'A'; 255];
    let compressed = rle::compress(&input);
    assert_eq!(compressed, vec![255, b'A']);
}

#[test]
fn test_rle_run_split_at_256() {
    // One byte past the cap: exactly two pairs, (255, v) then (1, v).
    let input = vec![b'A'; 256];
    let compressed = rle::compress(&input);
    assert_eq!(compressed, vec![255, b'A', 1, b'A']);
    let decompressed = rle::decompress(&compressed).unwrap();
    assert_eq!(input, decompressed);
}

#[test]
fn test_rle_decode_expands_pairs() {
    let encoded = vec![2, b'A', 1, b'B', 3, b'C'];
    let decompressed = rle::decompress(&encoded).unwrap();
    assert_eq!(decompressed, b"AABCCC".to_vec());
}

#[test]
fn test_rle_decode_zero_count() {
    // A zero count contributes nothing; the pair is not an error.
    let encoded = vec![0, b'A', 2, b'B'];
    let decompressed = rle::decompress(&encoded).unwrap();
    assert_eq!(decompressed, b"BB".to_vec());
}

#[test]
fn test_rle_roundtrip_adjacent_equal_runs() {
    // Two runs of the same value separated by another value.
    let input = b"AAAXAAA";
    let compressed = rle::compress(&input.to_vec());
    assert_eq!(compressed, vec![3, b'A', 1, b'X', 3, b'A']);
    let decompressed = rle::decompress(&compressed).unwrap();
    assert_eq!(input, decompressed.as_slice());
}
