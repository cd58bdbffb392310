use yip::config::Config;
use yip::cram::{bytes_to_cram_symbols, cram_symbols_to_bytes, CramConfig, RefType};

fn cram_test_config() -> Config {
    Config { opus_bitrate: 128, ..Config::conservative() }
}

fn default_cram() -> CramConfig {
    CramConfig { config: cram_test_config(), amp_levels: 4, phase_levels: 1, ref_type: RefType::Flat }
}

#[test]
fn cram_symbol_packing_roundtrip() {
    let cram = default_cram();
    let data: Vec<u8> = (0..100).map(|i| (i * 7 + 13) as u8).collect();
    let symbols = bytes_to_cram_symbols(&data, &cram);
    let recovered = cram_symbols_to_bytes(&symbols, &cram);
    assert_eq!(recovered[..data.len()], data[..]);
}

#[test]
fn cram_symbol_packing_roundtrip_with_phase() {
    let cram = CramConfig { config: cram_test_config(), amp_levels: 4, phase_levels: 4, ref_type: RefType::Flat };
    let data: Vec<u8> = (0..100).map(|i| (i * 7 + 13) as u8).collect();
    let symbols = bytes_to_cram_symbols(&data, &cram);
    let recovered = cram_symbols_to_bytes(&symbols, &cram);
    assert_eq!(recovered[..data.len()], data[..]);
}

#[test]
fn cram_throughput_calc() {
    let cram = CramConfig { config: cram_test_config(), amp_levels: 4, phase_levels: 1, ref_type: RefType::Flat };
    assert_eq!(cram.bits_per_bin(), 2);
    assert_eq!(cram.bits_per_frame(), 96);
    assert_eq!(cram.bytes_per_frame(), 12);
    assert_eq!(cram.throughput_bps(), 4800);
}

#[test]
fn cram_throughput_calc_with_phase() {
    let cram = CramConfig { config: Config::default(), amp_levels: 8, phase_levels: 8, ref_type: RefType::Flat };
    assert_eq!(cram.bits_per_bin(), 6);
    assert_eq!(cram.bits_per_frame(), 474);
    assert_eq!(cram.throughput_bps(), 23700);
}

#[test]
fn cram_symbols_values() {
    let cram = default_cram();
    assert_eq!(bytes_to_cram_symbols(&[0b1110_0100], &cram), vec![(3, 0), (2, 0), (1, 0), (0, 0)]);
    assert_eq!(cram.throughput_bytes(), 600);
}

#[test]
fn decode_cram_frames_recovers_payload() {
    let cram = default_cram();
    let data = b"cram frames";
    let framed = yip::framing::frame(data, &cram.config);
    let symbols = bytes_to_cram_symbols(&framed, &cram);
    let frames = yip::modulation::chunk_frames(&symbols, cram.config.n_bins, (0, 0));
    assert_eq!(yip::cram::decode_cram_frames(&frames, &cram), Some(data.to_vec()));
    let mut corrupted = frames.clone();
    let last = corrupted.len() - 1;
    corrupted[last][0] = (3, 0);
    corrupted[0][20] = ((corrupted[0][20].0 + 1) % 4, 0);
    assert_eq!(yip::cram::decode_cram_frames(&corrupted, &cram), None);
}
