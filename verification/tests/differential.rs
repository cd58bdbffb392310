use yip::config::Config;
use yip::differential::{calibration_symbol, decode_delta, diff_decode_frames, diff_encode_frames, encode_delta, DiffConfig, DiffMode};
use yip::pilot::{InterpMethod, PilotConfig};

fn pilot(amp_levels: usize, phase_levels: usize) -> PilotConfig {
    PilotConfig {
        config: Config { opus_bitrate: 128, ..Config::conservative() },
        pilot_spacing: 5,
        amp_levels,
        phase_levels,
        interp_method: InterpMethod::Linear,
    }
}

#[test]
fn delta_encode_decode_roundtrip() {
    let amp_levels = 4;
    let phase_levels = 2;
    let mode = DiffMode::Both;
    let prev = (1, 0);
    let current = (3, 1);
    let delta = encode_delta(current, prev, amp_levels, phase_levels, mode);
    let recovered = decode_delta(delta, prev, amp_levels, phase_levels, mode);
    assert_eq!(recovered, current);
}

#[test]
fn delta_wrap_around() {
    let amp_levels = 4;
    let phase_levels = 2;
    let mode = DiffMode::Both;
    let prev = (3, 1);
    let current = (0, 0);
    let delta = encode_delta(current, prev, amp_levels, phase_levels, mode);
    let recovered = decode_delta(delta, prev, amp_levels, phase_levels, mode);
    assert_eq!(recovered, current);
}

#[test]
fn diff_frame_encode_decode_no_recal() {
    let pilot = pilot(4, 1);
    let diff_cfg = DiffConfig { pilot, recal_interval: 0, diff_mode: DiffMode::AmpOnly };
    let data_bins = pilot.data_bins();
    let frames: Vec<Vec<(usize, usize)>> =
        (0..5).map(|f| (0..data_bins).map(|i| ((i + f) % 4, 0)).collect()).collect();
    let encoded = diff_encode_frames(&frames, &diff_cfg);
    assert_eq!(encoded.len(), 6);
    let decoded = diff_decode_frames(&encoded, &diff_cfg);
    assert_eq!(decoded.len(), 5);
    assert_eq!(decoded, frames);
}

#[test]
fn diff_frame_encode_decode_with_recal() {
    let pilot = pilot(4, 2);
    let diff_cfg = DiffConfig { pilot, recal_interval: 3, diff_mode: DiffMode::Both };
    let data_bins = pilot.data_bins();
    let frames: Vec<Vec<(usize, usize)>> =
        (0..10).map(|f| (0..data_bins).map(|i| ((i + f) % 4, (i + f) % 2)).collect()).collect();
    let encoded = diff_encode_frames(&frames, &diff_cfg);
    let decoded = diff_decode_frames(&encoded, &diff_cfg);
    assert_eq!(decoded.len(), frames.len());
    assert_eq!(decoded, frames);
}

#[test]
fn delta_values() {
    assert_eq!(encode_delta((0, 1), (3, 1), 4, 2, DiffMode::Both), (1, 0));
    assert_eq!(encode_delta((0, 1), (3, 0), 4, 2, DiffMode::AmpOnly), (1, 1));
    assert_eq!(encode_delta((2, 1), (3, 0), 4, 2, DiffMode::PhaseOnly), (2, 1));
    assert_eq!(decode_delta((1, 0), (3, 1), 4, 2, DiffMode::Both), (0, 1));
    assert_eq!(calibration_symbol(8, 2), (4, 1));
    assert_eq!(calibration_symbol(1, 1), (0, 0));
}

#[test]
fn calibration_frames_inserted() {
    let pilot = pilot(4, 1);
    let diff_cfg = DiffConfig { pilot, recal_interval: 2, diff_mode: DiffMode::AmpOnly };
    let data_bins = pilot.data_bins();
    let frames: Vec<Vec<(usize, usize)>> = (0..5).map(|f| vec![(f % 4, 0); data_bins]).collect();
    let encoded = diff_encode_frames(&frames, &diff_cfg);
    // cal, d0, d1, cal, d2, d3, cal, d4
    assert_eq!(encoded.len(), 8);
    let cal = vec![(2, 0); data_bins];
    assert_eq!(encoded[0], cal);
    assert_eq!(encoded[3], cal);
    assert_eq!(encoded[6], cal);
    // d0 = 0 against the calibration midpoint 2: (0 - 2) mod 4 = 2.
    assert_eq!(encoded[1], vec![(2, 0); data_bins]);
    assert_eq!(diff_decode_frames(&encoded, &diff_cfg), frames);
}

#[test]
fn effective_throughput() {
    let p = pilot(2, 1);
    let base = p.throughput_bps();
    assert_eq!(base, 1900);
    let none = DiffConfig { pilot: p, recal_interval: 0, diff_mode: DiffMode::Both };
    assert_eq!(none.effective_throughput_bps(), 1900);
    let ten = DiffConfig { pilot: p, recal_interval: 10, diff_mode: DiffMode::Both };
    assert_eq!(ten.effective_throughput_bps(), 1900 * 10 / 11);
    assert_eq!(ten.effective_throughput_bytes(), 1900 * 10 / 11 / 8);
}

#[test]
fn decode_empty_stream() {
    let diff_cfg = DiffConfig { pilot: pilot(4, 1), recal_interval: 0, diff_mode: DiffMode::Both };
    assert!(diff_decode_frames(&[], &diff_cfg).is_empty());
    let encoded = diff_encode_frames(&[], &diff_cfg);
    assert_eq!(encoded.len(), 1);
    assert!(diff_decode_frames(&encoded, &diff_cfg).is_empty());
}

#[test]
fn decode_diff_frames_recovers_payload() {
    let pilot = pilot(4, 2);
    let diff_cfg = DiffConfig { pilot, recal_interval: 3, diff_mode: DiffMode::Both };
    let data = b"differential frames";
    let framed = yip::framing::frame(data, &pilot.config);
    let symbols = yip::pilot::bytes_to_pilot_symbols(&framed, &pilot);
    let frames = yip::modulation::chunk_frames(&symbols, pilot.data_bins(), (0, 0));
    let tx = diff_encode_frames(&frames, &diff_cfg);
    let expected = tx.len();
    // Extra frames after the stream are ignored.
    let mut rx = tx.clone();
    rx.push(vec![(1, 1); pilot.data_bins()]);
    assert_eq!(yip::differential::decode_diff_frames(&rx, expected, &diff_cfg), Some(data.to_vec()));
    // Too few frames.
    assert_eq!(yip::differential::decode_diff_frames(&tx[..expected - 1], expected, &diff_cfg), None);
}
