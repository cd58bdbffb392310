use yip::config::{Config, WireHeader};
use yip::framing::{deframe, deframe_with_header, extract_wire_header, find_sync, frame, frame_with_header, FrameError, HEADER_SIZE};

fn default_config() -> Config {
    Config::default()
}

#[test]
fn framing_roundtrip() {
    let config = default_config();
    let payload = b"test payload";
    let framed = frame(payload, &config);
    let recovered = deframe(&framed, &config).unwrap();
    assert_eq!(recovered, payload);
}

#[test]
fn detect_corruption() {
    let config = default_config();
    let payload = b"important data";
    let mut framed = frame(payload, &config);
    let last = framed.len() - 1;
    framed[last] ^= 0xFF;
    assert!(matches!(deframe(&framed, &config), Err(FrameError::CrcMismatch { .. })));
}

#[test]
fn missing_sync() {
    let config = default_config();
    let garbage = vec![0u8; 100];
    assert!(matches!(deframe(&garbage, &config), Err(FrameError::NoSync)));
}

#[test]
fn with_leading_garbage() {
    let config = default_config();
    let payload = b"hello";
    let framed = frame(payload, &config);
    let mut with_garbage = vec![0xAA, 0xBB, 0xCC];
    with_garbage.extend_from_slice(&framed);
    let recovered = deframe(&with_garbage, &config).unwrap();
    assert_eq!(recovered, payload);
}

#[test]
fn little_endian_compat() {
    let config = default_config();
    let payload = b"endian test";
    let framed = frame(payload, &config);
    let len_bytes = &framed[4..8];
    let len = u32::from_le_bytes(len_bytes.try_into().unwrap());
    assert_eq!(len, payload.len() as u32);
}

#[test]
fn wire_header_roundtrip() {
    let config = default_config();
    let header = WireHeader::from_config(&config);
    let bytes = header.to_bytes();
    let (recovered, size) = WireHeader::from_bytes(&bytes).unwrap();
    assert_eq!(header, recovered);
    assert_eq!(size, header.serialized_size());
}

#[test]
fn framed_with_wire_header() {
    let config = default_config();
    let payload = b"with header";
    let framed = frame_with_header(payload, &config, false, "");

    let (wire, offset) = extract_wire_header(&framed).unwrap();
    assert_eq!(wire.version, WireHeader::VERSION);
    assert_eq!(wire.n_bins, 79);
    assert_eq!(wire.compression, 0);

    let recovered = deframe(&framed[offset..], &config).unwrap();
    assert_eq!(recovered, payload);
}

#[test]
fn framed_with_compression() {
    let config = default_config();
    let payload = b"compressed payload test data for yote";
    let framed = frame_with_header(payload, &config, true, "test.txt");

    let (wire, decompressed) = deframe_with_header(&framed, &config).unwrap();
    assert_eq!(wire.compression, 1);
    assert_eq!(wire.filename, "test.txt");
    assert_eq!(decompressed, payload);
}

#[test]
fn frame_layout_and_known_crc() {
    let config = default_config();
    let framed = frame(b"123456789", &config);
    assert_eq!(framed.len(), HEADER_SIZE + 9);
    assert_eq!(&framed[..4], &[0xDE, 0xAD, 0xBE, 0xEF]);
    assert_eq!(&framed[4..8], &[9, 0, 0, 0]);
    // The standard CRC-32 check value of "123456789".
    assert_eq!(u32::from_le_bytes(framed[8..12].try_into().unwrap()), 0xCBF4_3926);
    assert_eq!(&framed[12..], b"123456789");
}

#[test]
fn empty_payload_roundtrip() {
    let config = default_config();
    let framed = frame(b"", &config);
    assert_eq!(framed.len(), HEADER_SIZE);
    assert_eq!(deframe(&framed, &config).unwrap(), Vec::<u8>::new());
}

#[test]
fn too_short_header_and_payload() {
    let config = default_config();
    let framed = frame(b"abcdef", &config);
    match deframe(&framed[..8], &config) {
        Err(FrameError::TooShort { need, got }) => {
            assert_eq!(need, 12);
            assert_eq!(got, 8);
        }
        other => panic!("unexpected {:?}", other),
    }
    match deframe(&framed[..15], &config) {
        Err(FrameError::TooShort { need, got }) => {
            assert_eq!(need, 18);
            assert_eq!(got, 15);
        }
        other => panic!("unexpected {:?}", other),
    }
}

#[test]
fn crc_mismatch_reports_both_values() {
    let config = default_config();
    let mut framed = frame(b"xyz", &config);
    framed[12] ^= 1;
    match deframe(&framed, &config) {
        Err(FrameError::CrcMismatch { expected, actual }) => assert_ne!(expected, actual),
        other => panic!("unexpected {:?}", other),
    }
}

#[test]
fn find_sync_first_position() {
    let magic = [0xDE, 0xAD, 0xBE, 0xEF];
    let data = [0u8, 1, 0xDE, 0xAD, 0xBE, 0xEF, 0xDE, 0xAD, 0xBE, 0xEF];
    assert_eq!(find_sync(&data, &magic), Some(2));
    assert_eq!(find_sync(&data[..5], &magic), None);
}

#[test]
fn bad_wire_header() {
    let config = default_config();
    // Depth byte 3 names no depth.
    let data = [3u8, 3, 0, 0, 0, 0, 0, 0, 0, 0];
    assert!(matches!(deframe_with_header(&data, &config), Err(FrameError::BadWireHeader)));
}

#[test]
fn corrupt_compressed_payload() {
    let config = default_config();
    let header = {
        let mut h = WireHeader::from_config(&config);
        h.compression = 1;
        h
    };
    let mut data = header.to_bytes();
    data.extend_from_slice(&frame(b"not zstd at all", &config));
    assert!(matches!(deframe_with_header(&data, &config), Err(FrameError::DecompressError(_))));
}

#[test]
fn find_sync_none_without_magic() {
    let magic = *b"YIP!";
    assert_eq!(find_sync(b"YIP", &magic), None);
    assert_eq!(find_sync(b"xxYIxP!YI", &magic), None);
    assert_eq!(find_sync(b"xYIP!YIP!", &magic), Some(1));
}
