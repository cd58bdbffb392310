use yip::config::{Config, Depth};
use yip::modulation::{flatten_frames, header_window, packet_window};
use yip::modulation::{bytes_to_symbols, parse_stream_header, stream_frame_count, stream_header_frames, stream_payload, symbols_to_bytes, symbols_to_frames};

fn default_config() -> Config {
    Config::default()
}

#[test]
fn bytes_symbols_roundtrip_binary() {
    let config = Config::conservative();
    let data = b"Hello, yip!";
    let symbols = bytes_to_symbols(data, &config);
    let recovered = symbols_to_bytes(&symbols, &config);
    assert_eq!(&recovered[..data.len()], data.as_slice());
}

#[test]
fn bytes_symbols_roundtrip_quad() {
    let config = default_config();
    let data: Vec<u8> = (0..=255).collect();
    let symbols = bytes_to_symbols(&data, &config);
    let recovered = symbols_to_bytes(&symbols, &config);
    assert_eq!(recovered, data);
}

#[test]
fn bytes_symbols_roundtrip_hex16() {
    let mut config = default_config();
    config.depth = Depth::Hex16;
    let data: Vec<u8> = (0..=255).collect();
    let symbols = bytes_to_symbols(&data, &config);
    let recovered = symbols_to_bytes(&symbols, &config);
    assert_eq!(recovered, data);
}

#[test]
fn symbols_msb_first() {
    let mut config = default_config();
    config.depth = Depth::Quad;
    assert_eq!(bytes_to_symbols(&[0b1110_0100], &config), vec![3, 2, 1, 0]);
    config.depth = Depth::Binary;
    assert_eq!(bytes_to_symbols(&[0b1010_0001], &config), vec![1, 0, 1, 0, 0, 0, 0, 1]);
    config.depth = Depth::Hex16;
    assert_eq!(bytes_to_symbols(&[0xA7], &config), vec![0xA, 0x7]);
}

#[test]
fn trailing_partial_symbols_dropped() {
    let config = default_config();
    assert_eq!(symbols_to_bytes(&[3, 2, 1, 0, 3, 3], &config), vec![0b1110_0100]);
}

#[test]
fn frames_pad_with_zero() {
    let mut config = default_config();
    config.n_bins = 4;
    let frames = symbols_to_frames(&[1, 2, 3, 1, 2, 3], &config);
    assert_eq!(frames, vec![vec![1, 2, 3, 1], vec![2, 3, 0, 0]]);
    assert!(symbols_to_frames(&[], &config).is_empty());
}

#[test]
fn stream_header_and_payload() {
    let config = default_config();
    // 12 header bytes at 4 symbols each over 79 bins.
    assert_eq!(stream_header_frames(&config), 1);
    // (12 + 100) * 4 = 448 symbols -> 6 frames of 79.
    assert_eq!(stream_frame_count(100, &config), 6);
    let framed = yip::framing::frame(b"stream payload", &config);
    let symbols = bytes_to_symbols(&framed, &config);
    let (len, crc) = parse_stream_header(&symbols, &config).unwrap();
    assert_eq!(len, 14);
    assert_eq!(stream_payload(&symbols, len, crc, &config).unwrap(), b"stream payload");
    assert!(stream_payload(&symbols, len, crc ^ 1, &config).is_none());
    let noise = vec![0usize; symbols.len()];
    assert!(parse_stream_header(&noise, &config).is_none());
}

#[test]
fn chunk_frames_pads_with_fill() {
    let frames = yip::modulation::chunk_frames(&[(1usize, 1usize), (2, 0), (3, 1)], 2, (0, 0));
    assert_eq!(frames, vec![vec![(1, 1), (2, 0)], vec![(3, 1), (0, 0)]]);
    let exact = yip::modulation::chunk_frames(&[7u8, 8, 9, 10], 2, 0);
    assert_eq!(exact, vec![vec![7, 8], vec![9, 10]]);
}

#[test]
fn frames_read_back_end_to_end() {
    let config = default_config();
    let framed = yip::framing::frame(b"laid out in frames", &config);
    let symbols = bytes_to_symbols(&framed, &config);
    let frames = symbols_to_frames(&symbols, &config);
    let received: Vec<usize> = frames.concat();
    assert_eq!(&received[..symbols.len()], symbols.as_slice());
    assert!(received[symbols.len()..].iter().all(|&s| s == 0));
    let (len, crc) = parse_stream_header(&received, &config).unwrap();
    assert_eq!(stream_frame_count(len, &config), frames.len());
    assert_eq!(stream_payload(&received, len, crc, &config).unwrap(), b"laid out in frames");
}

#[test]
fn symbol_counts() {
    let config = default_config();
    assert_eq!(yip::modulation::header_symbol_count(&config), 48);
    assert_eq!(yip::modulation::packet_symbol_count(100, &config), Some(448));
    assert_eq!(yip::modulation::packet_symbol_count(usize::MAX - 3, &config), None);
}

#[test]
fn stream_windows() {
    let config = default_config();
    assert_eq!(header_window(0, 10, &config), Some(1));
    assert_eq!(header_window(9, 10, &config), Some(1));
    assert_eq!(header_window(10, 10, &config), None);
    assert_eq!(header_window(0, 0, &config), None);
    let framed = yip::framing::frame(b"stream payload", &config);
    let symbols = bytes_to_symbols(&framed, &config);
    let (_, crc) = parse_stream_header(&symbols, &config).unwrap();
    // (12 + 14) * 4 = 104 symbols -> 2 frames of 79.
    assert_eq!(packet_window(&symbols, 0, 2, &config), Some((14, crc, 2)));
    assert_eq!(packet_window(&symbols, 3, 10, &config), Some((14, crc, 2)));
    assert_eq!(packet_window(&symbols, 1, 2, &config), None);
    assert_eq!(packet_window(&symbols[..10], 0, 5, &config), None);
    assert_eq!(packet_window(&vec![0usize; 104], 0, 5, &config), None);
    let frames = symbols_to_frames(&symbols, &config);
    let flat = flatten_frames(&frames);
    assert_eq!(flat.len(), frames.len() * 79);
    assert_eq!(&flat[..symbols.len()], &symbols[..]);
}
