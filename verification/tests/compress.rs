use yip::compress::{compress, decompress};

#[test]
fn compress_roundtrip() {
    let data = b"hello from yote compression";
    let compressed = compress(data);
    let recovered = decompress(&compressed).unwrap();
    assert_eq!(recovered, data);
}

#[test]
fn roundtrip_binary() {
    let data: Vec<u8> = (0..4096).map(|i| (i % 256) as u8).collect();
    let compressed = compress(&data);
    let recovered = decompress(&compressed).unwrap();
    assert_eq!(recovered, data);
}

#[test]
fn compresses_repetitive_data() {
    let data = vec![0xAA; 10_000];
    let compressed = compress(&data);
    assert!(compressed.len() < data.len() / 10, "repetitive data should compress well");
}

#[test]
fn empty_data() {
    let compressed = compress(b"");
    let recovered = decompress(&compressed).unwrap();
    assert!(recovered.is_empty());
}

#[test]
fn compress_output_is_a_zstd_frame() {
    let data = b"abcabcabcabcabcabcabcabc";
    let compressed = compress(data);
    // A zstd frame starts with the magic number 0xFD2FB528 (little-endian).
    assert_eq!(&compressed[..4], &[0x28, 0xB5, 0x2F, 0xFD]);
    assert_ne!(compressed.as_slice(), data.as_slice());
}

#[test]
fn decompress_rejects_garbage() {
    assert!(decompress(b"definitely not zstd").is_err());
}
