use yip::config::Config;
use yip::opus::{bytes_to_packets, packets_to_bytes, sample_rate, OpusError};

#[test]
fn packet_serialization_roundtrip() {
    let packets = vec![vec![1, 2, 3, 4, 5], vec![10, 20], vec![100; 50]];
    let bytes = packets_to_bytes(&packets);
    let recovered = bytes_to_packets(&bytes).unwrap();
    assert_eq!(recovered, packets);
}

#[test]
fn packet_container_layout() {
    let packets = vec![vec![7u8, 8, 9], vec![]];
    let bytes = packets_to_bytes(&packets);
    assert_eq!(bytes, vec![2, 0, 0, 0, 3, 0, 7, 8, 9, 0, 0]);
}

#[test]
fn packet_container_truncated() {
    let packets = vec![vec![1u8; 10]];
    let bytes = packets_to_bytes(&packets);
    assert!(bytes_to_packets(&bytes[..bytes.len() - 1]).is_none());
    assert!(bytes_to_packets(&bytes[..3]).is_none());
    // Trailing bytes after the declared packets are ignored.
    let mut longer = bytes.clone();
    longer.push(0xFF);
    assert_eq!(bytes_to_packets(&longer).unwrap(), packets);
}

#[test]
fn opus_sample_rates() {
    let mut config = Config::default();
    assert_eq!(sample_rate(&config).unwrap(), 48000);
    config.sample_rate = 44100;
    assert!(matches!(sample_rate(&config), Err(OpusError::BadSampleRate(44100))));
}

#[test]
fn packet_container_any_trailing_bytes() {
    let packets = vec![vec![5u8; 3], vec![], vec![9u8; 300]];
    let mut bytes = packets_to_bytes(&packets);
    bytes.extend_from_slice(&[1, 2, 3, 4, 5, 6, 7]);
    assert_eq!(bytes_to_packets(&bytes).unwrap(), packets);
}
