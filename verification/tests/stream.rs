use yip::config::Config;
use yip::modulation::{bytes_to_symbols, symbols_to_frames};
use yip::stream::{FrameJob, StreamFramer};

fn small_config() -> Config {
    let mut c = Config::default();
    c.n_bins = 5;
    c.padding_frames = 2;
    c.trailing_frames = 3;
    c
}

fn data_frames(jobs: &[FrameJob]) -> Vec<Vec<usize>> {
    jobs.iter()
        .filter_map(|j| match j {
            FrameJob::Data(v) => Some(v.clone()),
            FrameJob::Silence => None,
        })
        .collect()
}

fn silence_count(jobs: &[FrameJob]) -> usize {
    jobs.iter().filter(|j| matches!(j, FrameJob::Silence)).count()
}

#[test]
fn stream_pushes_match_batch_layout() {
    let config = small_config();
    let mut framer = StreamFramer::new(config);
    let mut jobs = framer.push(b"ab");
    assert_eq!(silence_count(&jobs), 2);
    assert!(matches!(jobs[0], FrameJob::Silence) && matches!(jobs[1], FrameJob::Silence));
    jobs.extend(framer.push(b"c"));
    jobs.extend(framer.push(b""));
    jobs.extend(framer.push(b"defg"));
    let tail = framer.finish();
    assert_eq!(silence_count(&tail), 3);
    jobs.extend(tail);

    let symbols = bytes_to_symbols(b"abcdefg", &config);
    let batch = symbols_to_frames(&symbols, &config);
    assert_eq!(data_frames(&jobs), batch);
    assert_eq!(jobs.len(), 2 + batch.len() + 3);
}

#[test]
fn stream_emits_frames_as_they_fill() {
    let config = small_config();
    let mut framer = StreamFramer::new(config);
    // One byte is 4 symbols at Quad depth: not yet a frame of 5.
    let first = framer.push(b"x");
    assert_eq!(first.len(), 2);
    // Two more bytes make 12 symbols: two full frames, 2 left.
    let second = framer.push(b"yz");
    assert_eq!(data_frames(&second).len(), 2);
    assert_eq!(silence_count(&second), 0);
    let last = framer.finish();
    let frames = data_frames(&last);
    assert_eq!(frames.len(), 1);
    assert_eq!(frames[0].len(), 5);
    assert_eq!(&frames[0][2..], &[0, 0, 0]);
}

#[test]
fn stream_finish_without_data() {
    let config = small_config();
    let mut framer = StreamFramer::new(config);
    let jobs = framer.finish();
    assert_eq!(jobs.len(), 3);
    assert_eq!(silence_count(&jobs), 3);
}
