use yip::config::{Config, Depth};
use yip::quant::{overhead, throughput};

#[test]
fn throughput_default() {
    let config = Config::default();
    let info = throughput(&config);
    assert_eq!(info.bps, 7900);
    assert_eq!(info.bytes_per_sec, 987);
    assert_eq!(info.tokens_per_sec_utf8, 246);
}

#[test]
fn throughput_quad() {
    let config = Config::for_depth(Depth::Quad);
    let info = throughput(&config);
    assert_eq!(info.bps, config.n_bins * 2 * 50);
    assert_eq!(info.bytes_per_sec, info.bps / 8);
}

#[test]
fn throughput_hex16() {
    let config = Config::for_depth(Depth::Hex16);
    let info = throughput(&config);
    assert_eq!(info.bps, config.n_bins * 4 * 50);
    assert_eq!(info.bytes_per_sec, info.bps / 8);
}

#[test]
fn throughput_other_fields() {
    let info = throughput(&Config::conservative());
    assert_eq!(info.depth, Depth::Binary);
    assert_eq!(info.n_bins, 48);
    assert_eq!(info.bps, 2400);
    assert_eq!(info.tokens_per_sec_id16, 150);
    assert_eq!(info.frames_per_sec, 50);
}

#[test]
fn overhead_bytes() {
    let config = Config::default();
    // (100 + 12) bytes * 4 symbols = 448 symbols -> 6 frames, plus 20 silent
    // frames: 26 frames = 520 ms at 16000 B/s.
    assert_eq!(overhead(100, &config), 8320);
    // An empty payload still has the header: 48 symbols -> 1 frame.
    assert_eq!(overhead(0, &config), 21 * 20 * 16);
}
