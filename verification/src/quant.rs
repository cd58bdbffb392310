//! Throughput and overhead figures for the wrap/unwrap pipeline.
//!
//! Wrapping frames the data (sync, length, CRC), packs it into tone symbols of
//! `depth` bits per bin and emits one audio frame per `n_bins` symbols, between
//! leading and trailing silence. These figures follow from the configuration.

use vstd::prelude::*;

use crate::config::{Config, Depth};
use crate::framing::HEADER_SIZE;

verus! {

/// Throughput figures of a configuration.
#[derive(Debug, Clone, Copy)]
pub struct ThroughputInfo {
    pub depth: Depth,
    pub n_bins: usize,
    /// Data bits per second.
    pub bps: usize,
    /// Data bytes per second.
    pub bytes_per_sec: usize,
    /// Tokens per second at 4 bytes per UTF-8 token.
    pub tokens_per_sec_utf8: usize,
    /// Tokens per second at 2 bytes per token id.
    pub tokens_per_sec_id16: usize,
    /// Audio frames per second.
    pub frames_per_sec: usize,
}

/// Throughput figures of `config`.
pub fn throughput(config: &Config) -> (r: ThroughputInfo)
    requires
        config.throughput_computable(),
        config.frame_samples > 0,
    ensures
        r.depth == config.depth,
        r.n_bins == config.n_bins,
        r.bps == config.spec_throughput_bps(),
        r.bytes_per_sec == config.spec_throughput_bps() / 8,
        r.tokens_per_sec_utf8 == config.spec_throughput_bps() / 8 / 4,
        r.tokens_per_sec_id16 == config.spec_throughput_bps() / 8 / 2,
        r.frames_per_sec == config.spec_frames_per_sec(),
{
    let bps = config.throughput_bps();
    let bytes_per_sec = bps / 8;
    ThroughputInfo {
        depth: config.depth,
        n_bins: config.n_bins,
        bps,
        bytes_per_sec,
        tokens_per_sec_utf8: bytes_per_sec / 4,
        tokens_per_sec_id16: bytes_per_sec / 2,
        frames_per_sec: config.frames_per_sec(),
    }
}

/// Audio frames a wrapped payload of `payload_len` bytes takes: its framed
/// bytes as symbols, in frames of `n_bins`, plus the leading and trailing
/// silence.
pub open spec fn spec_total_frames(payload_len: int, config: Config) -> int {
    let total_symbols = (payload_len + HEADER_SIZE) * (8int / config.depth.spec_bits() as int);
    let data_frames = (total_symbols + config.n_bins - 1) / (config.n_bins as int);
    data_frames + config.padding_frames + config.trailing_frames
}

/// Bytes of Opus output for a wrapped payload: the bitrate in bytes per second
/// times the stream duration at 20 ms per frame.
pub open spec fn spec_overhead_bytes(payload_len: int, config: Config) -> int {
    (config.opus_bitrate as int * 1000 / 8) * (spec_total_frames(payload_len, config) * 20) / 1000
}

/// The arithmetic of `overhead` stays within `usize`.
pub open spec fn overhead_computable(payload_len: int, config: Config) -> bool {
    let total_symbols = (payload_len + HEADER_SIZE) * (8int / config.depth.spec_bits() as int);
    &&& config.n_bins > 0
    &&& config.opus_bitrate as int * 1000 <= usize::MAX
    &&& total_symbols + config.n_bins <= usize::MAX
    &&& spec_total_frames(payload_len, config) * 20 <= usize::MAX
    &&& (config.opus_bitrate as int * 1000 / 8) * (spec_total_frames(payload_len, config) * 20) <= usize::MAX
}

/// Estimated Opus bytes for a payload of `payload_len` bytes. (The ratio to
/// the payload length is a floating-point figure the caller derives.)
pub fn overhead(payload_len: usize, config: &Config) -> (r: usize)
    requires
        overhead_computable(payload_len as int, *config),
    ensures
        r == spec_overhead_bytes(payload_len as int, *config),
{
    let bits = config.depth.bits_per_bin();
    let symbols_per_byte = 8 / bits;
    proof {
        assert(1 <= symbols_per_byte <= 8);
        assert((payload_len + HEADER_SIZE) * symbols_per_byte >= payload_len + HEADER_SIZE) by (nonlinear_arith)
            requires symbols_per_byte >= 1, payload_len >= 0;
        assert((payload_len + HEADER_SIZE) * symbols_per_byte <= (payload_len + HEADER_SIZE) * 8) by (nonlinear_arith)
            requires symbols_per_byte <= 8;
        assert((payload_len + HEADER_SIZE) * symbols_per_byte + config.n_bins <= usize::MAX);
    }
    let framed_len = payload_len + HEADER_SIZE;
    let total_symbols = framed_len * symbols_per_byte;
    let num_data_frames = (total_symbols + config.n_bins - 1) / config.n_bins;
    proof {
        assert(num_data_frames <= total_symbols + config.n_bins) by (nonlinear_arith)
            requires
                num_data_frames == (total_symbols + config.n_bins - 1) / (config.n_bins as int),
                config.n_bins > 0;
    }
    let ghost tf = spec_total_frames(payload_len as int, *config);
    assert(tf * 20 <= usize::MAX);
    assert(num_data_frames + config.padding_frames + config.trailing_frames == tf);
    let total_frames = num_data_frames + config.padding_frames + config.trailing_frames;
    let duration_ms = total_frames * 20;
    let byte_rate = config.opus_bitrate as usize * 1000 / 8;
    let opus_bytes = byte_rate * duration_ms / 1000;
    opus_bytes
}

} // verus!
