use bitchat_rust::compression::{compress, decompress};

#[test]
fn test_compression_decompression_roundtrip() {
    let original_data = b"hello world, this is a test of the lz4 compression system. it should be able to handle this just fine.";
    let compressed_data = compress(original_data);
    let decompressed_data = decompress(&compressed_data).unwrap();

    assert_ne!(original_data.to_vec(), compressed_data);
    assert_eq!(original_data.to_vec(), decompressed_data);
}

#[test]
fn test_decompress_empty() {
    let compressed = compress(b"");
    let decompressed = decompress(&compressed).unwrap();
    assert_eq!(decompressed, b"");
}

#[test]
fn test_decompress_invalid_data() {
    let invalid_data = vec![1, 2, 3, 4];
    let result = decompress(&invalid_data);
    assert!(result.is_err());
}

#[test]
fn compressed_block_starts_with_little_endian_length() {
    let data = vec![7u8; 300];
    let c = compress(&data);
    assert_eq!(&c[..4], &[44, 1, 0, 0]);
    assert!(decompress(&c[..3]).is_err());
}
