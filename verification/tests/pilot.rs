use yip::config::Config;
use yip::pilot::{bracketing_pilots, bytes_to_pilot_symbols, nearest_pilot, pilot_symbols_to_bytes, InterpMethod, PilotConfig};

fn test_pilot_config() -> PilotConfig {
    PilotConfig {
        config: Config { opus_bitrate: 128, ..Config::conservative() },
        pilot_spacing: 5,
        amp_levels: 2,
        phase_levels: 1,
        interp_method: InterpMethod::Linear,
    }
}

#[test]
fn pilot_indices_correct() {
    let pc = test_pilot_config();
    let pilots = pc.pilot_indices();
    assert_eq!(pilots, vec![0, 5, 10, 15, 20, 25, 30, 35, 40, 45]);
    assert_eq!(pilots.len(), 10);
}

#[test]
fn data_indices_correct() {
    let pc = test_pilot_config();
    let data = pc.data_indices();
    let pilots = pc.pilot_indices();
    assert_eq!(data.len(), 48 - pilots.len());
    assert_eq!(data.len(), 38);
    for d in &data {
        assert!(!pilots.contains(d));
    }
}

#[test]
fn bits_per_frame_correct() {
    let pc = test_pilot_config();
    assert_eq!(pc.bits_per_bin(), 1);
    assert_eq!(pc.bits_per_frame(), 38);
    assert_eq!(pc.bytes_per_frame(), 4);
}

#[test]
fn throughput_calc() {
    let pc = test_pilot_config();
    assert_eq!(pc.throughput_bps(), 1900);
    assert_eq!(pc.throughput_bytes(), 237);
}

#[test]
fn throughput_calc_4amp_2phase() {
    let pc = PilotConfig {
        config: Config::default(),
        pilot_spacing: 5,
        amp_levels: 4,
        phase_levels: 2,
        interp_method: InterpMethod::Linear,
    };
    assert_eq!(pc.bits_per_bin(), 3);
    let pilots = pc.pilot_indices();
    assert_eq!(pilots.len(), 16);
    assert_eq!(pc.data_bins(), 63);
    assert_eq!(pc.bits_per_frame(), 189);
    assert_eq!(pc.throughput_bps(), 9450);
}

#[test]
fn pilot_symbol_packing_roundtrip() {
    let pc = test_pilot_config();
    let data: Vec<u8> = (0..50).map(|i| (i * 7 + 13) as u8).collect();
    let symbols = bytes_to_pilot_symbols(&data, &pc);
    let recovered = pilot_symbols_to_bytes(&symbols, &pc);
    assert_eq!(recovered[..data.len()], data[..]);
}

#[test]
fn pilot_symbol_packing_roundtrip_with_phase() {
    let pc = PilotConfig {
        config: Config::default(),
        pilot_spacing: 5,
        amp_levels: 4,
        phase_levels: 4,
        interp_method: InterpMethod::Linear,
    };
    let data: Vec<u8> = (0..100).map(|i| (i * 7 + 13) as u8).collect();
    let symbols = bytes_to_pilot_symbols(&data, &pc);
    let recovered = pilot_symbols_to_bytes(&symbols, &pc);
    assert_eq!(recovered[..data.len()], data[..]);
}

#[test]
fn pilot_symbols_split_amp_then_phase() {
    let pc = PilotConfig {
        config: Config::default(),
        pilot_spacing: 5,
        amp_levels: 4,
        phase_levels: 2,
        interp_method: InterpMethod::Linear,
    };
    // 0b101_100_11 -> (2,1), (2,0), (3, pad 0)
    let symbols = bytes_to_pilot_symbols(&[0b1011_0011], &pc);
    assert_eq!(symbols, vec![(2, 1), (2, 0), (3, 0)]);
}

#[test]
fn pilot_selection() {
    let pilots = [0usize, 5, 10];
    assert_eq!(bracketing_pilots(7, &pilots), (Some(1), Some(2)));
    assert_eq!(bracketing_pilots(5, &pilots), (Some(1), Some(1)));
    assert_eq!(bracketing_pilots(12, &pilots), (Some(2), None));
    assert_eq!(nearest_pilot(7, &pilots), 1);
    assert_eq!(nearest_pilot(8, &pilots), 2);
    assert_eq!(nearest_pilot(12, &pilots), 2);
}

#[test]
fn decode_pilot_frames_recovers_payload() {
    let pc = test_pilot_config();
    let data = b"pilot frames";
    let framed = yip::framing::frame(data, &pc.config);
    let symbols = bytes_to_pilot_symbols(&framed, &pc);
    let frames = yip::modulation::chunk_frames(&symbols, pc.data_bins(), (0, 0));
    assert_eq!(yip::pilot::decode_pilot_frames(&frames, &pc), Some(data.to_vec()));
    // Without the first frame the sync magic is gone.
    assert_eq!(yip::pilot::decode_pilot_frames(&frames[1..], &pc), None);
    assert_eq!(yip::pilot::decode_pilot_frames(&[], &pc), None);
}
