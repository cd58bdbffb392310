//! Pilot-tone channel estimation in mono Opus.
//!
//! Every `pilot_spacing`-th bin (bins 0, s, 2s, ...) carries a pilot tone of
//! known amplitude and phase; the remaining bins carry (amplitude, phase) data
//! symbols. This module holds the bin plan, the configuration arithmetic, the
//! symbol packing, and the choice of pilots a data bin is corrected from.

use vstd::prelude::*;
use vstd::arithmetic::power2::pow2;

use crate::bits::{
    bits_of_bytes, bits_to_bytes, bits_to_pairs, bytes_to_bits, is_pow2_usize, log2,
    pairs_to_bits, spec_bits_to_bytes, spec_bits_to_pairs, spec_log2, spec_pairs_to_bits,
};
use crate::config::Config;
use crate::framing::{deframe, spec_deframed};
use crate::modulation::{flatten_frames, frame_views};

verus! {

/// How channel distortion measured at the pilots is carried to a data bin.
#[derive(Debug, Clone, Copy, PartialEq, Eq, Structural)]
pub enum InterpMethod {
    /// Linear interpolation between the two bracketing pilots.
    Linear,
    /// The distortion of the closest pilot.
    NearestNeighbor,
}

/// Pilot configuration. The pilot tones are emitted at unit amplitude.
#[derive(Debug, Clone, Copy)]
pub struct PilotConfig {
    /// Base layout (bins, sample rate, frame size, ...).
    pub config: Config,
    /// Every `pilot_spacing`-th bin is a pilot.
    pub pilot_spacing: usize,
    /// Amplitude levels for data bins; a power of two.
    pub amp_levels: usize,
    /// Phase levels for data bins; a power of two (1 = amplitude only).
    pub phase_levels: usize,
    /// Interpolation between pilots.
    pub interp_method: InterpMethod,
}

/// Number of multiples of `s` below `n`: `ceil(n / s)`.
pub open spec fn pilot_count(n: int, s: int) -> int {
    (n + s - 1) / s
}

/// Data bins of a plan with `n` bins and a pilot every `s`: the bins that are
/// not multiples of `s`.
pub open spec fn data_bin_count(n: int, s: int) -> int {
    n - pilot_count(n, s)
}

/// `r` lists, in increasing order, exactly the bins below `n` that are not
/// multiples of `s`.
pub open spec fn is_data_index_list(r: Seq<usize>, n: int, s: int) -> bool {
    &&& forall|k: int| 0 <= k < r.len() ==> #[trigger] r[k] < n && (r[k] as int) % s != 0
    &&& forall|k: int, l: int| 0 <= k < l < r.len() ==> #[trigger] r[k] < #[trigger] r[l]
    &&& forall|i: int| 0 <= i < n && i % s != 0 ==> #[trigger] r.contains(i as usize)
}

/// `ceil(n / s) == m` when `(m - 1) * s < n <= m * s`.
proof fn lemma_pilot_count_is(n: int, s: int, m: int)
    requires
        s > 0,
        m >= 0,
        n <= m * s,
        m == 0 || (m - 1) * s < n,
        n >= 0,
    ensures
        pilot_count(n, s) == m,
{
    let r = n + s - 1 - m * s;
    assert(0 <= r < s) by (nonlinear_arith)
        requires s > 0, m >= 0, n <= m * s, m == 0 || (m - 1) * s < n, n >= 0, r == n + s - 1 - m * s;
    vstd::arithmetic::div_mod::lemma_fundamental_div_mod_converse(n + s - 1, s, m, r);
}

/// Indices of pilot bins below `n_bins`: 0, s, 2s, ...
pub fn pilot_index_list(n_bins: usize, spacing: usize) -> (r: Vec<usize>)
    requires
        spacing > 0,
    ensures
        r@.len() == pilot_count(n_bins as int, spacing as int),
        forall|k: int| 0 <= k < r@.len() ==> #[trigger] r@[k] == k * spacing,
{
    let mut out: Vec<usize> = Vec::new();
    let mut i: usize = 0;
    assert(out@.len() * spacing == 0) by (nonlinear_arith)
        requires out@.len() == 0;
    while i < n_bins
        invariant_except_break
            i == out@.len() * spacing,
        invariant
            spacing > 0,
            out@.len() == 0 || (out@.len() - 1) * spacing < n_bins,
            forall|k: int| 0 <= k < out@.len() ==> #[trigger] out@[k] == k * spacing,
        ensures
            n_bins <= out@.len() * spacing,
        decreases n_bins - i,
    {
        out.push(i);
        assert(i + spacing == out@.len() * spacing) by (nonlinear_arith)
            requires i == (out@.len() - 1) * spacing;
        if n_bins - i <= spacing {
            break;
        }
        i = i + spacing;
    }
    proof {
        lemma_pilot_count_is(n_bins as int, spacing as int, out@.len() as int);
    }
    out
}

/// Bins below `n_bins` that are not multiples of `spacing`, in increasing order.
pub fn data_index_list(n_bins: usize, spacing: usize) -> (r: Vec<usize>)
    requires
        spacing > 0,
    ensures
        is_data_index_list(r@, n_bins as int, spacing as int),
        r@.len() == data_bin_count(n_bins as int, spacing as int),
{
    let mut out: Vec<usize> = Vec::new();
    let mut i: usize = 0;
    proof {
        lemma_pilot_count_is(0, spacing as int, 0);
    }
    while i < n_bins
        invariant
            spacing > 0,
            i <= n_bins,
            is_data_index_list(out@, i as int, spacing as int),
            out@.len() == data_bin_count(i as int, spacing as int),
        decreases n_bins - i,
    {
        proof {
            if i == 0 {
                lemma_pilot_count_is(0, spacing as int, 0);
            }
        }
        let ghost before = out@;
        proof {
            let q = (i as int) / (spacing as int);
            let rem = (i as int) % (spacing as int);
            assert(i == q * spacing + rem && 0 <= rem < spacing) by (nonlinear_arith)
                requires q == (i as int) / (spacing as int), rem == (i as int) % (spacing as int), spacing > 0;
            assert(q >= 0) by (nonlinear_arith)
                requires q == (i as int) / (spacing as int), spacing > 0, i >= 0;
            if rem == 0 {
                if q > 0 {
                    assert((q - 1) * spacing < i) by (nonlinear_arith)
                        requires i == q * spacing, spacing > 0;
                }
                lemma_pilot_count_is(i as int, spacing as int, q);
                assert(q * spacing < i + 1 <= (q + 1) * spacing) by (nonlinear_arith)
                    requires i == q * spacing, spacing > 0;
                lemma_pilot_count_is(i + 1, spacing as int, q + 1);
            } else {
                assert(q * spacing < i <= (q + 1) * spacing && i + 1 <= (q + 1) * spacing) by (nonlinear_arith)
                    requires i == q * spacing + rem, 0 < rem < spacing;
                lemma_pilot_count_is(i as int, spacing as int, q + 1);
                lemma_pilot_count_is(i + 1, spacing as int, q + 1);
            }
        }
        if i % spacing != 0 {
            out.push(i);
            proof {
                assert forall|j: int| 0 <= j < i + 1 && j % (spacing as int) != 0 implies #[trigger] out@.contains(j as usize) by {
                    if j < i {
                        assert(before.contains(j as usize));
                        let w = choose|w: int| 0 <= w < before.len() && before[w] == j as usize;
                        assert(out@[w] == j as usize);
                    } else {
                        assert(out@[before.len() as int] == i);
                    }
                }
            }
        } else {
            proof {
                assert forall|j: int| 0 <= j < i + 1 && j % (spacing as int) != 0 implies #[trigger] out@.contains(j as usize) by {
                    assert(j != i);
                }
            }
        }
        i += 1;
    }
    out
}

impl PilotConfig {
    /// The pilot spacing is positive.
    pub open spec fn plan_ok(self) -> bool {
        self.pilot_spacing > 0
    }

    /// Both level counts are powers of two.
    pub open spec fn levels_ok(self) -> bool {
        is_pow2_usize(self.amp_levels) && is_pow2_usize(self.phase_levels)
    }

    /// Number of data bins per frame.
    pub open spec fn spec_data_bins(self) -> int {
        data_bin_count(self.config.n_bins as int, self.pilot_spacing as int)
    }

    /// Bits per data bin.
    pub open spec fn spec_bits_per_bin(self) -> nat {
        spec_log2(self.amp_levels) + spec_log2(self.phase_levels)
    }

    /// Data bits per frame.
    pub open spec fn spec_bits_per_frame(self) -> int {
        self.spec_data_bins() * self.spec_bits_per_bin()
    }

    /// A sound plan has a non-negative number of data bins.
    pub proof fn lemma_data_bins_nonneg(self)
        requires
            self.plan_ok(),
        ensures
            0 <= self.spec_data_bins() <= self.config.n_bins,
    {
        let n = self.config.n_bins as int;
        let s = self.pilot_spacing as int;
        assert((n + s - 1) / s <= n) by (nonlinear_arith)
            requires n >= 0, s >= 1;
        assert((n + s - 1) / s >= 0) by (nonlinear_arith)
            requires n >= 0, s >= 1;
    }

    /// Indices of pilot bins: 0, pilot_spacing, 2 * pilot_spacing, ... below n_bins.
    pub fn pilot_indices(&self) -> (r: Vec<usize>)
        requires
            self.plan_ok(),
        ensures
            r@.len() == pilot_count(self.config.n_bins as int, self.pilot_spacing as int),
            forall|k: int| 0 <= k < r@.len() ==> #[trigger] r@[k] == k * self.pilot_spacing,
    {
        pilot_index_list(self.config.n_bins, self.pilot_spacing)
    }

    /// Indices of data (non-pilot) bins, in increasing order.
    pub fn data_indices(&self) -> (r: Vec<usize>)
        requires
            self.plan_ok(),
        ensures
            is_data_index_list(r@, self.config.n_bins as int, self.pilot_spacing as int),
            r@.len() == self.spec_data_bins(),
    {
        data_index_list(self.config.n_bins, self.pilot_spacing)
    }

    /// Number of data bins per frame.
    pub fn data_bins(&self) -> (r: usize)
        requires
            self.plan_ok(),
        ensures
            r == self.spec_data_bins(),
    {
        self.data_indices().len()
    }

    /// Bits per data bin: `log2(amp_levels) + log2(phase_levels)`.
    pub fn bits_per_bin(&self) -> (r: usize)
        requires
            self.levels_ok(),
        ensures
            r == self.spec_bits_per_bin(),
    {
        log2(self.amp_levels) + log2(self.phase_levels)
    }

    /// Total data bits per frame.
    pub fn bits_per_frame(&self) -> (r: usize)
        requires
            self.plan_ok(),
            self.levels_ok(),
            self.spec_bits_per_frame() <= usize::MAX,
        ensures
            r == self.spec_bits_per_frame(),
    {
        self.data_bins() * self.bits_per_bin()
    }

    /// Bytes per frame (floor division).
    pub fn bytes_per_frame(&self) -> (r: usize)
        requires
            self.plan_ok(),
            self.levels_ok(),
            self.spec_bits_per_frame() <= usize::MAX,
        ensures
            r == self.spec_bits_per_frame() / 8,
    {
        self.bits_per_frame() / 8
    }

    /// Throughput in bits per second.
    pub fn throughput_bps(&self) -> (r: usize)
        requires
            self.plan_ok(),
            self.levels_ok(),
            self.config.frame_samples > 0,
            self.spec_bits_per_frame() <= usize::MAX,
            self.spec_bits_per_frame() * self.config.spec_frames_per_sec() <= usize::MAX,
        ensures
            r == self.spec_bits_per_frame() * self.config.spec_frames_per_sec(),
    {
        self.bits_per_frame() * self.config.frames_per_sec()
    }

    /// Throughput in bytes per second.
    pub fn throughput_bytes(&self) -> (r: usize)
        requires
            self.plan_ok(),
            self.levels_ok(),
            self.config.frame_samples > 0,
            self.spec_bits_per_frame() <= usize::MAX,
            self.spec_bits_per_frame() * self.config.spec_frames_per_sec() <= usize::MAX,
        ensures
            r == self.spec_bits_per_frame() * self.config.spec_frames_per_sec() / 8,
    {
        self.throughput_bps() / 8
    }
}

/// The (amplitude, phase) symbols that carry `data`, one per data bin.
pub open spec fn spec_bytes_to_pilot_symbols(data: Seq<u8>, cfg: PilotConfig) -> Seq<(usize, usize)> {
    spec_bits_to_pairs(bits_of_bytes(data), spec_log2(cfg.amp_levels), spec_log2(cfg.phase_levels))
}

/// The bytes that (amplitude, phase) symbols carry.
pub open spec fn spec_pilot_symbols_to_bytes(symbols: Seq<(usize, usize)>, cfg: PilotConfig) -> Seq<u8> {
    spec_bits_to_bytes(spec_pairs_to_bits(symbols, spec_log2(cfg.amp_levels), spec_log2(cfg.phase_levels)))
}

/// Convert bytes to pilot-scheme symbols (one per data bin).
pub fn bytes_to_pilot_symbols(data: &[u8], pilot_cfg: &PilotConfig) -> (r: Vec<(usize, usize)>)
    requires
        pilot_cfg.levels_ok(),
        pilot_cfg.spec_bits_per_bin() > 0,
        data@.len() * 8 + 128 <= usize::MAX,
    ensures
        r@ == spec_bytes_to_pilot_symbols(data@, *pilot_cfg),
        forall|k: int| 0 <= k < r@.len() ==> (#[trigger] r@[k]).0 < pilot_cfg.amp_levels && r@[k].1 < pilot_cfg.phase_levels,
{
    let amp_bits = log2(pilot_cfg.amp_levels);
    let phase_bits = log2(pilot_cfg.phase_levels);
    let bits = bytes_to_bits(data);
    proof {
        crate::bits::lemma_pairs_in_range(bits@, amp_bits as nat, phase_bits as nat);
    }
    bits_to_pairs(bits.as_slice(), amp_bits, phase_bits)
}

/// Convert pilot-scheme symbols back to bytes; a trailing partial byte is dropped.
pub fn pilot_symbols_to_bytes(symbols: &[(usize, usize)], pilot_cfg: &PilotConfig) -> (r: Vec<u8>)
    requires
        pilot_cfg.levels_ok(),
    ensures
        r@ == spec_pilot_symbols_to_bytes(symbols@, *pilot_cfg),
{
    let amp_bits = log2(pilot_cfg.amp_levels);
    let phase_bits = log2(pilot_cfg.phase_levels);
    let bits = pairs_to_bits(symbols, amp_bits, phase_bits);
    bits_to_bytes(bits.as_slice())
}

/// What a receiver recovers from demodulated pilot-scheme frames: the payload
/// of the packet in the bytes of their symbols, laid end to end.
pub open spec fn spec_decode_pilot_frames(frames: Seq<Seq<(usize, usize)>>, cfg: PilotConfig) -> Option<Seq<u8>> {
    spec_deframed(spec_pilot_symbols_to_bytes(frames.flatten(), cfg), cfg.config.sync_magic@)
}

/// Recover the payload from demodulated pilot-scheme frames, or `None` when
/// their bytes hold no intact packet.
pub fn decode_pilot_frames(frames: &[Vec<(usize, usize)>], pilot_cfg: &PilotConfig) -> (r: Option<Vec<u8>>)
    requires
        pilot_cfg.levels_ok(),
    ensures
        r is Some <==> spec_decode_pilot_frames(frame_views(frames@), *pilot_cfg) is Some,
        r matches Some(p) ==> spec_decode_pilot_frames(frame_views(frames@), *pilot_cfg) == Some(p@),
{
    let symbols = flatten_frames(frames);
    let raw = pilot_symbols_to_bytes(symbols.as_slice(), pilot_cfg);
    match deframe(raw.as_slice(), &pilot_cfg.config) {
        Ok(p) => Some(p),
        Err(_) => None,
    }
}

/// Law: the bytes of the pilot-scheme symbols of `data` start with `data`.
pub proof fn lemma_pilot_packing_roundtrip(data: Seq<u8>, cfg: PilotConfig)
    requires
        cfg.levels_ok(),
        cfg.spec_bits_per_bin() > 0,
    ensures
        spec_pilot_symbols_to_bytes(spec_bytes_to_pilot_symbols(data, cfg), cfg).subrange(0, data.len() as int) == data,
{
    let a = spec_log2(cfg.amp_levels);
    let p = spec_log2(cfg.phase_levels);
    assert(pow2(a) == cfg.amp_levels);
    assert(pow2(p) == cfg.phase_levels);
    crate::bits::lemma_symbol_packing_roundtrip(data, a, p);
}


/// Position in `p` of the last pilot at or below bin `t`.
pub open spec fn last_pilot_at_or_before(p: Seq<usize>, t: usize) -> Option<int>
    decreases p.len(),
{
    if p.len() == 0 {
        None
    } else if p.last() <= t {
        Some(p.len() - 1)
    } else {
        last_pilot_at_or_before(p.drop_last(), t)
    }
}

/// Position in `p` of the first pilot at or above bin `t`.
pub open spec fn first_pilot_at_or_after(p: Seq<usize>, t: usize) -> Option<int>
    decreases p.len(),
{
    if p.len() == 0 {
        None
    } else {
        match first_pilot_at_or_after(p.drop_last(), t) {
            Some(x) => Some(x),
            None => if p.last() >= t { Some(p.len() - 1) } else { None },
        }
    }
}

/// Position in `p` of the pilot closest to bin `t`, preferring the lower one on
/// a tie; 0 when neither bracket exists.
pub open spec fn spec_nearest_pilot(p: Seq<usize>, t: usize) -> int {
    match (last_pilot_at_or_before(p, t), first_pilot_at_or_after(p, t)) {
        (Some(l), Some(r)) => if t - p[l] <= p[r] - t { l } else { r },
        (Some(l), None) => l,
        (None, Some(r)) => r,
        (None, None) => 0,
    }
}

/// The pilots bracketing data bin `target_bin`: the position of the last pilot
/// at or below it and of the first pilot at or above it.
pub fn bracketing_pilots(target_bin: usize, pilot_indices: &[usize]) -> (r: (Option<usize>, Option<usize>))
    ensures
        r.0 matches Some(l) ==> last_pilot_at_or_before(pilot_indices@, target_bin) == Some(l as int),
        r.0 is None ==> last_pilot_at_or_before(pilot_indices@, target_bin) is None,
        r.1 matches Some(x) ==> first_pilot_at_or_after(pilot_indices@, target_bin) == Some(x as int),
        r.1 is None ==> first_pilot_at_or_after(pilot_indices@, target_bin) is None,
{
    let mut left: Option<usize> = None;
    let mut right: Option<usize> = None;
    let mut i: usize = 0;
    while i < pilot_indices.len()
        invariant
            i <= pilot_indices@.len(),
            match left {
                Some(l) => last_pilot_at_or_before(pilot_indices@.subrange(0, i as int), target_bin) == Some(l as int),
                None => last_pilot_at_or_before(pilot_indices@.subrange(0, i as int), target_bin) is None,
            },
            match right {
                Some(x) => first_pilot_at_or_after(pilot_indices@.subrange(0, i as int), target_bin) == Some(x as int),
                None => first_pilot_at_or_after(pilot_indices@.subrange(0, i as int), target_bin) is None,
            },
        decreases pilot_indices@.len() - i,
    {
        let pi = pilot_indices[i];
        proof {
            assert(pilot_indices@.subrange(0, i + 1).drop_last() =~= pilot_indices@.subrange(0, i as int));
        }
        if pi <= target_bin {
            left = Some(i);
        }
        if pi >= target_bin && right.is_none() {
            right = Some(i);
        }
        i += 1;
    }
    assert(pilot_indices@.subrange(0, pilot_indices@.len() as int) =~= pilot_indices@);
    (left, right)
}

/// A bracket found by `last_pilot_at_or_before` or `first_pilot_at_or_after` is a position in `p`.
proof fn lemma_brackets_in_range(p: Seq<usize>, t: usize)
    ensures
        last_pilot_at_or_before(p, t) matches Some(l) ==> 0 <= l < p.len() && p[l] <= t,
        first_pilot_at_or_after(p, t) matches Some(x) ==> 0 <= x < p.len() && p[x] >= t,
    decreases p.len(),
{
    if p.len() > 0 {
        lemma_brackets_in_range(p.drop_last(), t);
    }
}

/// The position of the pilot nearest to `target_bin` (the lower one on a tie).
pub fn nearest_pilot(target_bin: usize, pilot_indices: &[usize]) -> (r: usize)
    requires
        pilot_indices@.len() > 0,
    ensures
        r == spec_nearest_pilot(pilot_indices@, target_bin),
        r < pilot_indices@.len(),
{
    proof {
        lemma_brackets_in_range(pilot_indices@, target_bin);
    }
    match bracketing_pilots(target_bin, pilot_indices) {
        (Some(l), Some(r)) => {
            let dl = target_bin - pilot_indices[l];
            let dr = pilot_indices[r] - target_bin;
            if dl <= dr { l } else { r }
        },
        (Some(l), None) => l,
        (None, Some(r)) => r,
        (None, None) => 0,
    }
}

/// Pilots past the last one at or below `t` lie above `t`.
proof fn lemma_last_pilot_is_last(p: Seq<usize>, t: usize)
    ensures
        last_pilot_at_or_before(p, t) matches Some(l) ==> forall|k: int| l < k < p.len() ==> #[trigger] p[k] > t,
        last_pilot_at_or_before(p, t) is None ==> forall|k: int| 0 <= k < p.len() ==> #[trigger] p[k] > t,
    decreases p.len(),
{
    if p.len() > 0 {
        let q = p.drop_last();
        lemma_last_pilot_is_last(q, t);
        lemma_brackets_in_range(q, t);
        if p.last() > t {
            match last_pilot_at_or_before(q, t) {
                Some(l) => {
                    assert forall|k: int| l < k < p.len() implies #[trigger] p[k] > t by {
                        if k < p.len() - 1 {
                            assert(p[k] == q[k]);
                        }
                    }
                },
                None => {
                    assert forall|k: int| 0 <= k < p.len() implies #[trigger] p[k] > t by {
                        if k < p.len() - 1 {
                            assert(p[k] == q[k]);
                        }
                    }
                },
            }
        }
    }
}

/// Pilots before the first one at or above `t` lie below `t`.
proof fn lemma_first_pilot_is_first(p: Seq<usize>, t: usize)
    ensures
        first_pilot_at_or_after(p, t) matches Some(x) ==> forall|k: int| 0 <= k < x ==> #[trigger] p[k] < t,
        first_pilot_at_or_after(p, t) is None ==> forall|k: int| 0 <= k < p.len() ==> #[trigger] p[k] < t,
    decreases p.len(),
{
    if p.len() > 0 {
        lemma_first_pilot_is_first(p.drop_last(), t);
        lemma_brackets_in_range(p.drop_last(), t);
        assert forall|k: int| 0 <= k < p.len() - 1 implies #[trigger] p[k] == p.drop_last()[k] by {}
    }
}

/// Distance between two bins.
pub open spec fn bin_distance(a: usize, b: usize) -> int {
    if a >= b { a - b } else { b - a }
}

/// Law: in a list of pilot bins in increasing order, `nearest_pilot` picks a
/// pilot at least as close to the target bin as any other pilot.
pub proof fn lemma_nearest_pilot_is_closest(p: Seq<usize>, t: usize, k: int)
    requires
        p.len() > 0,
        forall|i: int, j: int| 0 <= i <= j < p.len() ==> #[trigger] p[i] <= #[trigger] p[j],
        0 <= k < p.len(),
    ensures
        0 <= spec_nearest_pilot(p, t) < p.len(),
        bin_distance(p[spec_nearest_pilot(p, t)], t) <= bin_distance(p[k], t),
{
    lemma_brackets_in_range(p, t);
    lemma_last_pilot_is_last(p, t);
    lemma_first_pilot_is_first(p, t);
    let lo = last_pilot_at_or_before(p, t);
    let hi = first_pilot_at_or_after(p, t);
    if p[k] <= t {
        // k is at or before the last pilot at or below t.
        if let Some(l) = lo {
            if k > l {
                assert(p[k] > t);
            }
            assert(p[k] <= p[l]);
        } else {
            assert(p[k] > t);
        }
    } else {
        if let Some(x) = hi {
            if k < x {
                assert(p[k] < t);
            }
            assert(p[x] <= p[k]);
        } else {
            assert(p[k] < t);
        }
    }
}

} // verus!
