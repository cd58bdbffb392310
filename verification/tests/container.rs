use yip::config::{Config, WireHeader};
use yip::container::{build_yip_file, parse_yip_file, restore_payload, yip_payload, yip_wire_header};

#[test]
fn yip_file_roundtrip() {
    let config = Config::default();
    let wire = yip_wire_header(&config, true, "notes.txt");
    assert_eq!(wire.compression, 1);
    assert_eq!(wire.filename, "notes.txt");
    let packets = vec![vec![1u8, 2, 3], vec![], vec![9u8; 300]];
    let file = build_yip_file(&wire, &packets);
    assert_eq!(&file[..4], b"YIP\x03");
    let (back, back_packets) = parse_yip_file(&file).unwrap();
    assert_eq!(back, wire);
    assert_eq!(back_packets, packets);
}

#[test]
fn yip_file_rejects_bad_input() {
    let config = Config::default();
    let wire = yip_wire_header(&config, false, "");
    let file = build_yip_file(&wire, &[vec![5u8; 4]]);
    let mut bad_tag = file.clone();
    bad_tag[0] = b'X';
    assert!(parse_yip_file(&bad_tag).is_none());
    assert!(parse_yip_file(&file[..11]).is_none());
    assert!(parse_yip_file(&file[..file.len() - 1]).is_none());
    // The version byte is not checked.
    let mut other_version = file.clone();
    other_version[3] = 9;
    assert!(parse_yip_file(&other_version).is_some());
}

#[test]
fn yip_payload_roundtrip() {
    let data = b"payload payload payload payload";
    for compress in [false, true] {
        let wire = yip_wire_header(&Config::default(), compress, "f");
        let stored = yip_payload(data, compress);
        if compress {
            assert_ne!(stored.as_slice(), data.as_slice());
        } else {
            assert_eq!(stored.as_slice(), data.as_slice());
        }
        assert_eq!(restore_payload(stored, &wire).unwrap(), data);
    }
}

#[test]
fn restore_rejects_bad_zstd() {
    let mut wire = WireHeader::from_config(&Config::default());
    wire.compression = 1;
    assert!(restore_payload(b"nope".to_vec(), &wire).is_err());
}
