use yip::config::Config;
use yip::constellation::{
    bytes_to_constellation_symbols, calibration_index, constellation_symbols_to_bytes, diff_decode_indices, diff_encode_indices,
    ConstellationConfig,
};
use yip::pilot::InterpMethod;

fn base_config() -> Config {
    Config { opus_bitrate: 128, ..Config::conservative() }
}

/// A configuration with `n_points` constellation points.
fn test_constellation_cfg(n_points: usize) -> ConstellationConfig {
    ConstellationConfig {
        config: base_config(),
        pilot_spacing: 5,
        interp_method: InterpMethod::Linear,
        n_points,
        use_diff: false,
        recal_interval: 0,
    }
}

#[test]
fn constellation_symbol_packing_roundtrip() {
    // A 4 x 2 uniform grid: 8 points, 3 bits per symbol.
    let cfg = test_constellation_cfg(8);
    assert_eq!(cfg.bits_per_symbol(), 3);
    let data: Vec<u8> = (0..50).map(|i| (i * 7 + 13) as u8).collect();
    let indices = bytes_to_constellation_symbols(&data, &cfg);
    let recovered = constellation_symbols_to_bytes(&indices, &cfg);
    assert_eq!(recovered[..data.len()], data[..]);
}

#[test]
fn symbol_packing_roundtrip_power_of_2() {
    // An 8 x 1 uniform grid.
    let cfg = test_constellation_cfg(8);
    assert_eq!(cfg.bits_per_symbol(), 3);
    let data: Vec<u8> = (0..100).map(|i| (i * 3 + 5) as u8).collect();
    let indices = bytes_to_constellation_symbols(&data, &cfg);
    let recovered = constellation_symbols_to_bytes(&indices, &cfg);
    assert_eq!(recovered[..data.len()], data[..]);
}

#[test]
fn bits_per_symbol_correct() {
    assert_eq!(test_constellation_cfg(2).bits_per_symbol(), 1);
    assert_eq!(test_constellation_cfg(4).bits_per_symbol(), 2);
    assert_eq!(test_constellation_cfg(8).bits_per_symbol(), 3);
    assert_eq!(test_constellation_cfg(16).bits_per_symbol(), 4);
    // A pruned grid keeping 12 points.
    assert_eq!(test_constellation_cfg(12).bits_per_symbol(), 3);
}

#[test]
fn diff_encode_decode_roundtrip() {
    let n_symbols = 8;
    let frames: Vec<Vec<usize>> = (0..5).map(|f| (0..10).map(|i| (i + f) % n_symbols).collect()).collect();
    let encoded = diff_encode_indices(&frames, n_symbols, 0);
    assert_eq!(encoded.len(), 6);
    let decoded = diff_decode_indices(&encoded, n_symbols, 0);
    assert_eq!(decoded.len(), 5);
    assert_eq!(decoded, frames);
}

#[test]
fn diff_encode_decode_with_recal() {
    let n_symbols = 16;
    let frames: Vec<Vec<usize>> = (0..10).map(|f| (0..8).map(|i| (i + f) % n_symbols).collect()).collect();
    let encoded = diff_encode_indices(&frames, n_symbols, 3);
    let decoded = diff_decode_indices(&encoded, n_symbols, 3);
    assert_eq!(decoded.len(), frames.len());
    assert_eq!(decoded, frames);
}

#[test]
fn constellation_degenerate_and_usable() {
    let one = test_constellation_cfg(1);
    assert_eq!(one.bits_per_symbol(), 0);
    assert_eq!(one.usable_symbols(), 1);
    assert_eq!(bytes_to_constellation_symbols(&[0xFF, 0x01], &one), vec![0; 16]);
    assert!(constellation_symbols_to_bytes(&[1, 2, 3], &one).is_empty());
    assert_eq!(test_constellation_cfg(12).usable_symbols(), 8);
}

#[test]
fn constellation_throughput() {
    // 48 bins, pilots every 5: 10 pilots, 38 data bins, 3 bits each.
    let cfg = test_constellation_cfg(8);
    assert_eq!(cfg.data_bins(), 38);
    assert_eq!(cfg.bits_per_frame(), 114);
    assert_eq!(cfg.bytes_per_frame(), 14);
    assert_eq!(cfg.throughput_bps(), 5700);
    assert_eq!(cfg.throughput_bytes(), 712);
    assert_eq!(cfg.pilot_indices(), vec![0, 5, 10, 15, 20, 25, 30, 35, 40, 45]);
}

#[test]
fn diff_indices_values() {
    assert_eq!(calibration_index(8), 4);
    let encoded = diff_encode_indices(&[vec![0, 7]], 8, 0);
    // Calibration frame of index 4, then (0 - 4) mod 8 and (7 - 4) mod 8.
    assert_eq!(encoded, vec![vec![4, 4], vec![4, 3]]);
}

#[test]
fn decode_constellation_frames_recovers_payload() {
    let data = b"constellation frames";
    for use_diff in [false, true] {
        let cfg = ConstellationConfig { use_diff, recal_interval: 2, ..test_constellation_cfg(8) };
        let framed = yip::framing::frame(data, &cfg.config);
        let indices = bytes_to_constellation_symbols(&framed, &cfg);
        let frames = yip::modulation::chunk_frames(&indices, cfg.data_bins(), 0);
        let tx = if use_diff { diff_encode_indices(&frames, cfg.usable_symbols(), cfg.recal_interval) } else { frames.clone() };
        let expected = tx.len();
        assert_eq!(yip::constellation::decode_constellation_frames(&tx, expected, &cfg), Some(data.to_vec()));
        let short = &tx[..expected - 1];
        assert_eq!(yip::constellation::decode_constellation_frames(short, expected, &cfg), None);
    }
}
