//! CRAM: codec-relative amplitude modulation over stereo Opus.
//!
//! The left channel carries a known reference, the right channel the data;
//! each data bin holds an amplitude index and a phase index. This module holds
//! the configuration arithmetic and the packing of bytes into (amplitude,
//! phase) symbols.

use vstd::prelude::*;
use vstd::arithmetic::power2::pow2;

use crate::bits::{
    bits_of_bytes, bits_to_bytes, bits_to_pairs, bytes_to_bits, is_pow2_usize, log2,
    pairs_to_bits, spec_bits_to_bytes, spec_bits_to_pairs, spec_log2, spec_pairs_to_bits,
};
use crate::config::Config;
use crate::framing::{deframe, spec_deframed};
use crate::modulation::{flatten_frames, frame_views};

verus! {

/// Shape of the reference channel.
#[derive(Debug, Clone, Copy, PartialEq, Eq, Structural)]
pub enum RefType {
    /// Every bin at full amplitude.
    Flat,
    /// Even bins at full amplitude, odd bins at half.
    Alternating,
}

/// CRAM configuration: a base layout and the amplitude and phase levels per bin.
#[derive(Debug, Clone, Copy)]
pub struct CramConfig {
    pub config: Config,
    /// Amplitude levels per data bin; a power of two.
    pub amp_levels: usize,
    /// Phase levels per data bin; a power of two (1 = amplitude only).
    pub phase_levels: usize,
    pub ref_type: RefType,
}

impl CramConfig {
    /// Both level counts are powers of two.
    pub open spec fn levels_ok(self) -> bool {
        is_pow2_usize(self.amp_levels) && is_pow2_usize(self.phase_levels)
    }

    /// Bits per bin: `log2(amp_levels) + log2(phase_levels)`.
    pub open spec fn spec_bits_per_bin(self) -> nat {
        spec_log2(self.amp_levels) + spec_log2(self.phase_levels)
    }

    /// Bits per frame: `n_bins * bits_per_bin`.
    pub open spec fn spec_bits_per_frame(self) -> int {
        self.config.n_bins * self.spec_bits_per_bin()
    }

    /// Bits per bin.
    pub fn bits_per_bin(&self) -> (r: usize)
        requires
            self.levels_ok(),
        ensures
            r == self.spec_bits_per_bin(),
    {
        log2(self.amp_levels) + log2(self.phase_levels)
    }

    /// Bits per frame.
    pub fn bits_per_frame(&self) -> (r: usize)
        requires
            self.levels_ok(),
            self.spec_bits_per_frame() <= usize::MAX,
        ensures
            r == self.spec_bits_per_frame(),
    {
        self.config.n_bins * self.bits_per_bin()
    }

    /// Bytes per frame (floor division).
    pub fn bytes_per_frame(&self) -> (r: usize)
        requires
            self.levels_ok(),
            self.spec_bits_per_frame() <= usize::MAX,
        ensures
            r == self.spec_bits_per_frame() / 8,
    {
        self.bits_per_frame() / 8
    }

    /// Throughput in bits per second: bits per frame times frames per second.
    pub fn throughput_bps(&self) -> (r: usize)
        requires
            self.levels_ok(),
            self.config.frame_samples > 0,
            self.spec_bits_per_frame() * self.config.spec_frames_per_sec() <= usize::MAX,
            self.spec_bits_per_frame() <= usize::MAX,
        ensures
            r == self.spec_bits_per_frame() * self.config.spec_frames_per_sec(),
    {
        self.bits_per_frame() * self.config.frames_per_sec()
    }

    /// Throughput in bytes per second.
    pub fn throughput_bytes(&self) -> (r: usize)
        requires
            self.levels_ok(),
            self.config.frame_samples > 0,
            self.spec_bits_per_frame() * self.config.spec_frames_per_sec() <= usize::MAX,
            self.spec_bits_per_frame() <= usize::MAX,
        ensures
            r == self.spec_bits_per_frame() * self.config.spec_frames_per_sec() / 8,
    {
        self.throughput_bps() / 8
    }
}

/// The (amplitude, phase) symbols that carry `data`.
pub open spec fn spec_bytes_to_cram_symbols(data: Seq<u8>, cram: CramConfig) -> Seq<(usize, usize)> {
    spec_bits_to_pairs(bits_of_bytes(data), spec_log2(cram.amp_levels), spec_log2(cram.phase_levels))
}

/// The bytes that (amplitude, phase) symbols carry.
pub open spec fn spec_cram_symbols_to_bytes(symbols: Seq<(usize, usize)>, cram: CramConfig) -> Seq<u8> {
    spec_bits_to_bytes(spec_pairs_to_bits(symbols, spec_log2(cram.amp_levels), spec_log2(cram.phase_levels)))
}

/// Cut the bits of `data` into symbols of `log2(amp_levels)` amplitude bits and
/// `log2(phase_levels)` phase bits, the last padded with zero bits.
pub fn bytes_to_cram_symbols(data: &[u8], cram: &CramConfig) -> (r: Vec<(usize, usize)>)
    requires
        cram.levels_ok(),
        cram.spec_bits_per_bin() > 0,
        data@.len() * 8 + 128 <= usize::MAX,
    ensures
        r@ == spec_bytes_to_cram_symbols(data@, *cram),
        forall|k: int| 0 <= k < r@.len() ==> (#[trigger] r@[k]).0 < cram.amp_levels && r@[k].1 < cram.phase_levels,
{
    let amp_bits = log2(cram.amp_levels);
    let phase_bits = log2(cram.phase_levels);
    let bits = bytes_to_bits(data);
    proof {
        crate::bits::lemma_pairs_in_range(bits@, amp_bits as nat, phase_bits as nat);
    }
    bits_to_pairs(bits.as_slice(), amp_bits, phase_bits)
}

/// Write the bits of each symbol back out and regroup them into bytes; a
/// trailing partial byte is dropped.
pub fn cram_symbols_to_bytes(symbols: &[(usize, usize)], cram: &CramConfig) -> (r: Vec<u8>)
    requires
        cram.levels_ok(),
    ensures
        r@ == spec_cram_symbols_to_bytes(symbols@, *cram),
{
    let amp_bits = log2(cram.amp_levels);
    let phase_bits = log2(cram.phase_levels);
    let bits = pairs_to_bits(symbols, amp_bits, phase_bits);
    bits_to_bytes(bits.as_slice())
}

/// What a receiver recovers from demodulated CRAM frames: the payload of the
/// packet in the bytes of their symbols, laid end to end.
pub open spec fn spec_decode_cram_frames(frames: Seq<Seq<(usize, usize)>>, cram: CramConfig) -> Option<Seq<u8>> {
    spec_deframed(spec_cram_symbols_to_bytes(frames.flatten(), cram), cram.config.sync_magic@)
}

/// Recover the payload from demodulated CRAM frames, or `None` when their
/// bytes hold no intact packet.
pub fn decode_cram_frames(frames: &[Vec<(usize, usize)>], cram: &CramConfig) -> (r: Option<Vec<u8>>)
    requires
        cram.levels_ok(),
    ensures
        r is Some <==> spec_decode_cram_frames(frame_views(frames@), *cram) is Some,
        r matches Some(p) ==> spec_decode_cram_frames(frame_views(frames@), *cram) == Some(p@),
{
    let symbols = flatten_frames(frames);
    let raw = cram_symbols_to_bytes(symbols.as_slice(), cram);
    match deframe(raw.as_slice(), &cram.config) {
        Ok(p) => Some(p),
        Err(_) => None,
    }
}

/// Law: the bytes of the CRAM symbols of `data` start with `data`.
pub proof fn lemma_cram_packing_roundtrip(data: Seq<u8>, cram: CramConfig)
    requires
        cram.levels_ok(),
        cram.spec_bits_per_bin() > 0,
    ensures
        spec_cram_symbols_to_bytes(spec_bytes_to_cram_symbols(data, cram), cram).subrange(0, data.len() as int) == data,
{
    let a = spec_log2(cram.amp_levels);
    let p = spec_log2(cram.phase_levels);
    assert(pow2(a) == cram.amp_levels);
    assert(pow2(p) == cram.phase_levels);
    crate::bits::lemma_symbol_packing_roundtrip(data, a, p);
}

} // verus!
