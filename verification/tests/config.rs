use yip::config::{Config, Depth, WireHeader};

#[test]
fn depth_levels_and_codes() {
    assert_eq!(Depth::Binary.levels(), 2);
    assert_eq!(Depth::Quad.levels(), 4);
    assert_eq!(Depth::Hex16.levels(), 16);
    assert_eq!(Depth::Hex16.bits_per_bin(), 4);
    assert_eq!(Depth::from_u8(2), Some(Depth::Quad));
    assert_eq!(Depth::from_u8(3), None);
    assert_eq!(Depth::Quad.to_string(), "quad (2-bit, 4-tone FSK)");
    assert_eq!(Depth::Hex16.to_string(), "hex16 (4-bit, 16-tone FSK)");
}

#[test]
fn presets() {
    let d = Config::default();
    assert_eq!((d.n_bins, d.bin_spacing, d.base_freq, d.opus_bitrate), (79, 250, 200, 128));
    assert_eq!(d.depth, Depth::Quad);
    assert_eq!(d.bits_per_frame(), 158);
    assert_eq!(d.bytes_per_frame(), 19);
    assert_eq!(d.throughput_bps(), 7900);
    assert_eq!(d.throughput_bytes(), 987);
    assert_eq!(d.frames_per_sec(), 50);
    let c = Config::conservative();
    assert_eq!((c.n_bins, c.depth, c.opus_bitrate), (48, Depth::Binary, 64));
    let l = Config::low_bandwidth();
    assert_eq!((l.n_bins, l.depth, l.opus_bitrate), (71, Depth::Quad, 96));
}

#[test]
fn for_depth_layouts() {
    let b = Config::for_depth(Depth::Binary);
    assert_eq!((b.bin_spacing, b.n_bins), (250, 79));
    let q = Config::for_depth(Depth::Quad);
    assert_eq!((q.bin_spacing, q.n_bins), (300, 66));
    let h = Config::for_depth(Depth::Hex16);
    assert_eq!((h.bin_spacing, h.n_bins), (1021, 19));
    assert!(b.is_valid() && q.is_valid() && h.is_valid());
}

#[test]
fn validity() {
    let mut c = Config::default();
    assert!(c.is_valid());
    // 16 tones in 250 Hz at 50 Hz resolution do not fit.
    c.depth = Depth::Hex16;
    assert!(!c.is_valid());
    c.frame_samples = 0;
    assert!(!c.is_valid());
}

#[test]
fn wire_header_fields() {
    let config = Config::default();
    let h = WireHeader::from_config(&config);
    assert_eq!(h.to_bytes(), vec![3, 2, 79, 0, 250, 0, 200, 0, 0, 0]);
    let back = h.to_config();
    assert_eq!((back.n_bins, back.bin_spacing, back.base_freq, back.depth), (79, 250, 200, Depth::Quad));
    // A v2 header is the 8 fixed bytes.
    let (v2, size) = WireHeader::from_bytes(&[2, 1, 48, 0, 250, 0, 200, 0, 77]).unwrap();
    assert_eq!(size, 8);
    assert_eq!(v2.depth, Depth::Binary);
    assert_eq!(v2.compression, 0);
    assert!(WireHeader::from_bytes(&[3, 2, 79, 0, 250, 0, 200, 0, 0]).is_none());
}

#[test]
fn wire_header_lossy_filename() {
    let (h, size) = WireHeader::from_bytes(&[3, 2, 1, 0, 1, 0, 1, 0, 0, 2, 0xFF, b'a']).unwrap();
    assert_eq!(size, 12);
    assert_eq!(h.filename, "\u{FFFD}a");
}

#[test]
fn depth_code_roundtrip() {
    for d in [Depth::Binary, Depth::Quad, Depth::Hex16] {
        assert_eq!(Depth::from_u8(d.to_u8()), Some(d));
        assert_eq!(d.levels(), 1 << d.bits_per_bin());
    }
}

#[test]
fn serialized_size_matches_bytes() {
    let mut h = WireHeader::from_config(&Config::default());
    assert_eq!(h.serialized_size(), 10);
    assert_eq!(h.to_bytes().len(), h.serialized_size());
    h.filename = String::from("naïve.txt");
    assert_eq!(h.serialized_size(), 10 + 10);
    assert_eq!(h.to_bytes().len(), h.serialized_size());
}
