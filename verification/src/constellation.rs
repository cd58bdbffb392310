//! Constellation-optimized modulation over mono Opus.
//!
//! Each data bin carries the index of one point of a constellation of
//! (amplitude, phase) points; pilot bins sit every `pilot_spacing` bins as in
//! the pilot scheme. Only the first `2^floor(log2(n_points))` points are used,
//! so a symbol carries `floor(log2(n_points))` bits. This module holds the
//! configuration arithmetic, the packing of bytes into point indices, and the
//! differential coding of index frames. The point positions themselves, and
//! the synthesis and analysis of frames, belong to the signal code.

use vstd::prelude::*;
use vstd::arithmetic::power2::{pow2, lemma_pow2_unfold, lemma_pow2_pos};

use crate::bits::{
    bits_of_bytes, bits_to_bytes, bits_to_pairs, bytes_to_bits, pairs_to_bits, spec_bits_to_bytes,
    spec_bits_to_pairs, spec_pairs_to_bits,
};
use crate::config::Config;
use crate::framing::{deframe, spec_deframed};
use crate::modulation::{flatten_frames, frame_views};
use crate::differential::{
    add_mod, coded_from_calibration, constant_frame, copy_frame, data_slot, frames_since_calibration,
    lemma_schedule_step, lemma_slot_before_end, lemma_slot_mono, mod_diff, mod_sub, segment_start,
    since_at_slot,
};
use crate::pilot::{data_bin_count, data_index_list, pilot_count, pilot_index_list, is_data_index_list, InterpMethod};

verus! {

/// Constellation configuration.
#[derive(Debug, Clone, Copy)]
pub struct ConstellationConfig {
    /// Base layout (bins, sample rate, frame size, ...).
    pub config: Config,
    /// Every `pilot_spacing`-th bin is a pilot.
    pub pilot_spacing: usize,
    /// Interpolation between pilots.
    pub interp_method: InterpMethod,
    /// Number of constellation points.
    pub n_points: usize,
    /// Whether index frames are sent differentially.
    pub use_diff: bool,
    /// Data frames between re-calibration frames when `use_diff` (0 = never).
    pub recal_interval: usize,
}

/// `floor(log2(n))`, with 0 for `n <= 1`.
pub open spec fn floor_log2(n: nat) -> nat
    decreases n,
{
    if n <= 1 {
        0
    } else {
        1 + floor_log2(n / 2)
    }
}

/// `2^floor(log2(n)) <= n` for `n >= 1`.
proof fn lemma_floor_log2_bound(n: nat)
    requires
        n >= 1,
    ensures
        pow2(floor_log2(n)) <= n,
        floor_log2(n) < 64 || n > u64::MAX,
    decreases n,
{
    if n <= 1 {
        assert(pow2(0) == 1) by { vstd::arithmetic::power2::lemma2_to64(); }
    } else {
        lemma_floor_log2_bound(n / 2);
        lemma_pow2_unfold(floor_log2(n));
        if floor_log2(n / 2) >= 63 && n <= u64::MAX {
            vstd::arithmetic::power2::lemma2_to64_rest();
            if floor_log2(n / 2) > 63 {
                vstd::arithmetic::power2::lemma_pow2_strictly_increases(63, floor_log2(n / 2));
            }
        }
    }
}

impl ConstellationConfig {
    /// The pilot spacing is positive.
    pub open spec fn plan_ok(self) -> bool {
        self.pilot_spacing > 0
    }

    /// Bits per symbol: `floor(log2(n_points))`, 0 with fewer than two points.
    pub open spec fn spec_bits_per_symbol(self) -> nat {
        floor_log2(self.n_points as nat)
    }

    /// Data bins per frame.
    pub open spec fn spec_data_bins(self) -> int {
        data_bin_count(self.config.n_bins as int, self.pilot_spacing as int)
    }

    /// Data bits per frame.
    pub open spec fn spec_bits_per_frame(self) -> int {
        self.spec_data_bins() * self.spec_bits_per_symbol()
    }

    /// Bits per symbol: `floor(log2(n_points))`, 0 with fewer than two points.
    pub fn bits_per_symbol(&self) -> (r: usize)
        ensures
            r == self.spec_bits_per_symbol(),
            r < 64,
    {
        if self.n_points <= 1 {
            return 0;
        }
        proof {
            lemma_floor_log2_bound(self.n_points as nat);
        }
        let mut m = self.n_points;
        let mut r: usize = 0;
        while m > 1
            invariant
                1 <= m <= self.n_points,
                floor_log2(self.n_points as nat) < 64,
                r + floor_log2(m as nat) == floor_log2(self.n_points as nat),
            decreases m,
        {
            m = m / 2;
            r += 1;
        }
        proof {
            lemma_floor_log2_bound(self.n_points as nat);
        }
        r
    }

    /// Number of points in use: `2^bits_per_symbol`.
    pub fn usable_symbols(&self) -> (r: usize)
        ensures
            r == pow2(self.spec_bits_per_symbol()),
            1 <= r,
            self.n_points >= 1 ==> r <= self.n_points,
    {
        let bps = self.bits_per_symbol();
        proof {
            assert(pow2(0) == 1) by { vstd::arithmetic::power2::lemma2_to64(); }
            if self.n_points >= 1 {
                lemma_floor_log2_bound(self.n_points as nat);
            } else {
                assert(pow2(0) == 1) by { vstd::arithmetic::power2::lemma2_to64(); }
            }
            lemma_pow2_pos(bps as nat);
        }
        let mut r: usize = 1;
        let mut i: usize = 0;
        while i < bps
            invariant
                i <= bps,
                bps == self.spec_bits_per_symbol(),
                pow2(bps as nat) <= usize::MAX,
                r == pow2(i as nat),
            decreases bps - i,
        {
            proof {
                lemma_pow2_unfold((i + 1) as nat);
                if i + 1 < bps {
                    vstd::arithmetic::power2::lemma_pow2_strictly_increases((i + 1) as nat, bps as nat);
                }
            }
            r = r * 2;
            i += 1;
        }
        r
    }

    /// Indices of pilot bins: 0, pilot_spacing, 2 * pilot_spacing, ... below n_bins.
    pub fn pilot_indices(&self) -> (r: Vec<usize>)
        requires
            self.plan_ok(),
        ensures
            r@.len() == pilot_count(self.config.n_bins as int, self.pilot_spacing as int),
            forall|k: int| 0 <= k < r@.len() ==> #[trigger] r@[k] == k * self.pilot_spacing,
    {
        pilot_index_list(self.config.n_bins, self.pilot_spacing)
    }

    /// Indices of data (non-pilot) bins, in increasing order.
    pub fn data_indices(&self) -> (r: Vec<usize>)
        requires
            self.plan_ok(),
        ensures
            is_data_index_list(r@, self.config.n_bins as int, self.pilot_spacing as int),
            r@.len() == self.spec_data_bins(),
    {
        data_index_list(self.config.n_bins, self.pilot_spacing)
    }

    /// Number of data bins per frame.
    pub fn data_bins(&self) -> (r: usize)
        requires
            self.plan_ok(),
        ensures
            r == self.spec_data_bins(),
    {
        self.data_indices().len()
    }

    /// Data bits per frame.
    pub fn bits_per_frame(&self) -> (r: usize)
        requires
            self.plan_ok(),
            self.spec_bits_per_frame() <= usize::MAX,
        ensures
            r == self.spec_bits_per_frame(),
    {
        self.data_bins() * self.bits_per_symbol()
    }

    /// Bytes per frame (floor division).
    pub fn bytes_per_frame(&self) -> (r: usize)
        requires
            self.plan_ok(),
            self.spec_bits_per_frame() <= usize::MAX,
        ensures
            r == self.spec_bits_per_frame() / 8,
    {
        self.bits_per_frame() / 8
    }

    /// Throughput in bits per second.
    pub fn throughput_bps(&self) -> (r: usize)
        requires
            self.plan_ok(),
            self.config.frame_samples > 0,
            self.spec_bits_per_frame() <= usize::MAX,
            self.spec_bits_per_frame() * self.config.spec_frames_per_sec() <= usize::MAX,
        ensures
            r == self.spec_bits_per_frame() * self.config.spec_frames_per_sec(),
    {
        self.bits_per_frame() * self.config.frames_per_sec()
    }

    /// Throughput in bytes per second.
    pub fn throughput_bytes(&self) -> (r: usize)
        requires
            self.plan_ok(),
            self.config.frame_samples > 0,
            self.spec_bits_per_frame() <= usize::MAX,
            self.spec_bits_per_frame() * self.config.spec_frames_per_sec() <= usize::MAX,
        ensures
            r == self.spec_bits_per_frame() * self.config.spec_frames_per_sec() / 8,
    {
        self.throughput_bps() / 8
    }
}

/// The point indices that carry `data`: its bits cut into
/// `bits_per_symbol`-bit groups, the last padded with zero bits; with
/// `bits_per_symbol == 0`, one index 0 per bit.
pub open spec fn spec_bytes_to_constellation_symbols(data: Seq<u8>, cfg: ConstellationConfig) -> Seq<usize> {
    let bps = cfg.spec_bits_per_symbol();
    if bps == 0 {
        Seq::new(data.len() * 8, |i: int| 0usize)
    } else {
        let pairs = spec_bits_to_pairs(bits_of_bytes(data), bps, 0);
        Seq::new(pairs.len(), |k: int| pairs[k].0)
    }
}

/// The bytes that point indices carry: the low `bits_per_symbol` bits of each,
/// regrouped into bytes, a trailing partial byte dropped; nothing when
/// `bits_per_symbol == 0`.
pub open spec fn spec_constellation_symbols_to_bytes(indices: Seq<usize>, cfg: ConstellationConfig) -> Seq<u8> {
    let bps = cfg.spec_bits_per_symbol();
    if bps == 0 {
        Seq::empty()
    } else {
        spec_bits_to_bytes(spec_pairs_to_bits(Seq::new(indices.len(), |k: int| (indices[k], 0usize)), bps, 0))
    }
}

/// Cut the bits of `data` into `bits_per_symbol`-bit point indices.
pub fn bytes_to_constellation_symbols(data: &[u8], cfg: &ConstellationConfig) -> (r: Vec<usize>)
    requires
        data@.len() * 8 + 128 <= usize::MAX,
    ensures
        r@ == spec_bytes_to_constellation_symbols(data@, *cfg),
        forall|k: int| 0 <= k < r@.len() ==> #[trigger] r@[k] < pow2(cfg.spec_bits_per_symbol()),
{
    let bps = cfg.bits_per_symbol();
    proof {
        assert(pow2(0) == 1) by { vstd::arithmetic::power2::lemma2_to64(); }
    }
    if bps == 0 {
        let r = constant_frame(0usize, data.len() * 8);
        return r;
    }
    proof {
        lemma_floor_log2_bound(cfg.n_points as nat);
    }
    let bits = bytes_to_bits(data);
    proof {
        crate::bits::lemma_pairs_in_range(bits@, bps as nat, 0);
    }
    let pairs = bits_to_pairs(bits.as_slice(), bps, 0);
    let mut out: Vec<usize> = Vec::new();
    let mut k: usize = 0;
    while k < pairs.len()
        invariant
            k <= pairs@.len(),
            out@ == Seq::new(k as nat, |j: int| pairs@[j].0),
        decreases pairs@.len() - k,
    {
        out.push(pairs[k].0);
        k += 1;
        assert(out@ =~= Seq::new(k as nat, |j: int| pairs@[j].0));
    }
    out
}

/// Write the low `bits_per_symbol` bits of each index back out and regroup
/// them into bytes.
pub fn constellation_symbols_to_bytes(indices: &[usize], cfg: &ConstellationConfig) -> (r: Vec<u8>)
    ensures
        r@ == spec_constellation_symbols_to_bytes(indices@, *cfg),
{
    let bps = cfg.bits_per_symbol();
    if bps == 0 {
        return Vec::new();
    }
    proof {
        lemma_floor_log2_bound(cfg.n_points as nat);
        assert(pow2(0) == 1) by { vstd::arithmetic::power2::lemma2_to64(); }
    }
    let mut pairs: Vec<(usize, usize)> = Vec::new();
    let mut k: usize = 0;
    while k < indices.len()
        invariant
            k <= indices@.len(),
            pairs@ == Seq::new(k as nat, |j: int| (indices@[j], 0usize)),
        decreases indices@.len() - k,
    {
        pairs.push((indices[k], 0));
        k += 1;
        assert(pairs@ =~= Seq::new(k as nat, |j: int| (indices@[j], 0usize)));
    }
    let bits = pairs_to_bits(pairs.as_slice(), bps, 0);
    bits_to_bytes(bits.as_slice())
}

/// Law: the bytes of the point indices of `data` start with `data`, whenever a
/// symbol carries at least one bit (two or more points).
pub proof fn lemma_constellation_packing_roundtrip(data: Seq<u8>, cfg: ConstellationConfig)
    requires
        cfg.n_points >= 2,
    ensures
        spec_constellation_symbols_to_bytes(spec_bytes_to_constellation_symbols(data, cfg), cfg)
            .subrange(0, data.len() as int) == data,
{
    let bps = cfg.spec_bits_per_symbol();
    lemma_floor_log2_bound(cfg.n_points as nat);
    assert(pow2(0) == 1) by { vstd::arithmetic::power2::lemma2_to64(); }
    assert(bps > 0);
    let pairs = spec_bits_to_pairs(bits_of_bytes(data), bps, 0);
    let idx = spec_bytes_to_constellation_symbols(data, cfg);
    let back = Seq::new(idx.len(), |k: int| (idx[k], 0usize));
    let bits = bits_of_bytes(data);
    let n = crate::bits::symbol_count(bits.len() as int, bps as int);
    let pb = crate::bits::pad_bits(bits, bps);
    assert(n * bps >= bits.len()) by (nonlinear_arith)
        requires n == (bits.len() + bps - 1) / (bps as int), bps > 0;
    assert(pb.len() == n * bps);
    assert forall|k: int| 0 <= k < pairs.len() implies #[trigger] pairs[k].1 == 0usize by {
        assert(k * bps + bps <= n * bps) by (nonlinear_arith)
            requires 0 <= k < n, bps > 0;
        assert(pb.subrange(k * bps + bps, k * bps + bps) =~= Seq::<bool>::empty());
    }
    assert(idx.len() == pairs.len());
    assert forall|k: int| 0 <= k < pairs.len() implies #[trigger] back[k] == pairs[k] by {
        assert(idx[k] == pairs[k].0);
        assert(pairs[k].1 == 0usize);
    }
    assert(back =~= pairs);
    crate::bits::lemma_symbol_packing_roundtrip(data, bps, 0);
}

/// The calibration index: the middle of the symbol range.
pub open spec fn spec_calibration_index(n_symbols: usize) -> usize {
    n_symbols / 2
}

/// The calibration index: the middle of the symbol range.
pub fn calibration_index(n_symbols: usize) -> (r: usize)
    ensures
        r == spec_calibration_index(n_symbols),
{
    n_symbols / 2
}

/// The contents of a list of index frames.
pub open spec fn index_frames_view(v: Seq<Vec<usize>>) -> Seq<Seq<usize>> {
    Seq::new(v.len(), |i: int| v[i]@)
}

/// Length of the shorter of two frames.
pub open spec fn min_len_idx(a: Seq<usize>, b: Seq<usize>) -> nat {
    if a.len() <= b.len() { a.len() } else { b.len() }
}

/// A frame of `n` calibration indices.
pub open spec fn cal_index_frame(n_symbols: usize, n: nat) -> Seq<usize> {
    Seq::new(n, |i: int| spec_calibration_index(n_symbols))
}

/// `(cur - prev) mod n_symbols`, index by index, over the common length.
pub open spec fn zip_encode_idx(cur: Seq<usize>, prev: Seq<usize>, n_symbols: usize) -> Seq<usize> {
    Seq::new(min_len_idx(cur, prev), |i: int| mod_sub(cur[i], prev[i], n_symbols))
}

/// `(prev + recv) mod n_symbols`, index by index, over the common length.
pub open spec fn zip_decode_idx(recv: Seq<usize>, prev: Seq<usize>, n_symbols: usize) -> Seq<usize> {
    Seq::new(min_len_idx(recv, prev), |i: int| ((prev[i] + recv[i]) % (n_symbols as int)) as usize)
}

/// After `since` data frames, the next frame is a calibration frame.
pub open spec fn recal_due(recal_interval: usize, since: nat) -> bool {
    recal_interval > 0 && since >= recal_interval
}

/// Index frames sent for `frames`, given the previous frame, the data frames
/// since the last calibration, and the calibration frame.
pub open spec fn encode_idx_from(
    frames: Seq<Seq<usize>>,
    prev: Seq<usize>,
    since: nat,
    n_symbols: usize,
    recal_interval: usize,
    cal: Seq<usize>,
) -> Seq<Seq<usize>>
    decreases frames.len(),
{
    if frames.len() == 0 {
        Seq::empty()
    } else if recal_due(recal_interval, since) {
        seq![cal, zip_encode_idx(frames[0], cal, n_symbols)]
            + encode_idx_from(frames.drop_first(), frames[0], 1, n_symbols, recal_interval, cal)
    } else {
        seq![zip_encode_idx(frames[0], prev, n_symbols)]
            + encode_idx_from(frames.drop_first(), frames[0], since + 1, n_symbols, recal_interval, cal)
    }
}

/// Index frames recovered from received frames, given the previous decoded
/// frame, the data frames since the last calibration, and the calibration frame.
pub open spec fn decode_idx_from(
    recv: Seq<Seq<usize>>,
    prev: Seq<usize>,
    since: nat,
    n_symbols: usize,
    recal_interval: usize,
    cal: Seq<usize>,
) -> Seq<Seq<usize>>
    decreases recv.len(),
{
    if recv.len() == 0 {
        Seq::empty()
    } else if recal_due(recal_interval, since) {
        decode_idx_from(recv.drop_first(), cal, 0, n_symbols, recal_interval, cal)
    } else {
        seq![zip_decode_idx(recv[0], prev, n_symbols)]
            + decode_idx_from(recv.drop_first(), zip_decode_idx(recv[0], prev, n_symbols), since + 1, n_symbols, recal_interval, cal)
    }
}

/// Length of the first frame, or 0 without frames.
pub open spec fn first_len(frames: Seq<Seq<usize>>) -> nat {
    if frames.len() == 0 { 0 } else { frames[0].len() }
}

/// Frames to transmit: a calibration frame as long as the first data frame,
/// then the delta frames with calibration frames inserted.
pub open spec fn spec_diff_encode_indices(frames: Seq<Seq<usize>>, n_symbols: usize, recal_interval: usize) -> Seq<Seq<usize>> {
    let cal = cal_index_frame(n_symbols, first_len(frames));
    seq![cal] + encode_idx_from(frames, cal, 0, n_symbols, recal_interval, cal)
}

/// Index frames from received frames; the first received frame is calibration.
pub open spec fn spec_diff_decode_indices(recv: Seq<Seq<usize>>, n_symbols: usize, recal_interval: usize) -> Seq<Seq<usize>> {
    let cal = cal_index_frame(n_symbols, first_len(recv));
    if recv.len() == 0 {
        Seq::empty()
    } else {
        decode_idx_from(recv.drop_first(), cal, 0, n_symbols, recal_interval, cal)
    }
}

proof fn lemma_index_frames_view_push(v: Seq<Vec<usize>>, x: Vec<usize>)
    ensures
        index_frames_view(v.push(x)) == index_frames_view(v).push(x@),
{
    assert(index_frames_view(v.push(x)) =~= index_frames_view(v).push(x@));
}

/// `(cur - prev) mod n_symbols` over the common length.
fn zip_encode_index_frame(cur: &[usize], prev: &[usize], n_symbols: usize) -> (r: Vec<usize>)
    requires
        n_symbols > 0,
    ensures
        r@ == zip_encode_idx(cur@, prev@, n_symbols),
{
    let n = if cur.len() <= prev.len() { cur.len() } else { prev.len() };
    let mut out: Vec<usize> = Vec::new();
    let mut i: usize = 0;
    while i < n
        invariant
            n_symbols > 0,
            n == min_len_idx(cur@, prev@),
            i <= n,
            out@ == zip_encode_idx(cur@, prev@, n_symbols).take(i as int),
        decreases n - i,
    {
        out.push(mod_diff(cur[i], prev[i], n_symbols));
        i += 1;
        assert(out@ =~= zip_encode_idx(cur@, prev@, n_symbols).take(i as int));
    }
    assert(out@ =~= zip_encode_idx(cur@, prev@, n_symbols));
    out
}

/// `(prev + recv) mod n_symbols` over the common length.
fn zip_decode_index_frame(recv: &[usize], prev: &[usize], n_symbols: usize) -> (r: Vec<usize>)
    requires
        n_symbols > 0,
    ensures
        r@ == zip_decode_idx(recv@, prev@, n_symbols),
{
    let n = if recv.len() <= prev.len() { recv.len() } else { prev.len() };
    let mut out: Vec<usize> = Vec::new();
    let mut i: usize = 0;
    while i < n
        invariant
            n_symbols > 0,
            n == min_len_idx(recv@, prev@),
            i <= n,
            out@ == zip_decode_idx(recv@, prev@, n_symbols).take(i as int),
        decreases n - i,
    {
        out.push(add_mod(prev[i], recv[i], n_symbols));
        i += 1;
        assert(out@ =~= zip_decode_idx(recv@, prev@, n_symbols).take(i as int));
    }
    assert(out@ =~= zip_decode_idx(recv@, prev@, n_symbols));
    out
}

/// Encode index frames differentially: a calibration frame (the calibration
/// index in every bin, as many bins as the first frame) first, then each frame
/// as its per-bin difference modulo `n_symbols` from the previous frame, with a
/// calibration frame re-sent after every `recal_interval` frames when
/// `recal_interval > 0`.
pub fn diff_encode_indices(data_frames: &[Vec<usize>], n_symbols: usize, recal_interval: usize) -> (r: Vec<Vec<usize>>)
    requires
        n_symbols > 0,
    ensures
        index_frames_view(r@) == spec_diff_encode_indices(index_frames_view(data_frames@), n_symbols, recal_interval),
{
    let ghost frames = index_frames_view(data_frames@);
    let cal_idx = calibration_index(n_symbols);
    let data_bins = if data_frames.len() == 0 { 0 } else { data_frames[0].len() };
    let cal = constant_frame(cal_idx, data_bins);
    let ghost calv = cal_index_frame(n_symbols, first_len(frames));
    assert(cal@ =~= calv);

    let mut out: Vec<Vec<usize>> = Vec::new();
    let mut prev: Vec<usize> = copy_frame(&cal);
    let mut since: usize = 0;
    out.push(copy_frame(&cal));
    proof {
        lemma_index_frames_view_push(Seq::empty(), out@[0]);
        assert(index_frames_view(out@) =~= seq![calv]);
        assert(frames.skip(0) =~= frames);
    }

    let mut i: usize = 0;
    while i < data_frames.len()
        invariant
            n_symbols > 0,
            frames == index_frames_view(data_frames@),
            cal@ == calv,
            calv == cal_index_frame(n_symbols, first_len(frames)),
            i <= data_frames.len(),
            since <= i,
            index_frames_view(out@) + encode_idx_from(frames.skip(i as int), prev@, since as nat, n_symbols, recal_interval, calv)
                == spec_diff_encode_indices(frames, n_symbols, recal_interval),
        decreases data_frames.len() - i,
    {
        let ghost before = index_frames_view(out@);
        let ghost rest = frames.skip(i as int);
        let ghost step = encode_idx_from(rest, prev@, since as nat, n_symbols, recal_interval, calv);
        assert(rest[0] == data_frames@[i as int]@);
        assert(rest.drop_first() =~= frames.skip(i + 1));
        let ghost lead: Seq<Seq<usize>>;
        if recal_interval > 0 && since >= recal_interval {
            let c = copy_frame(&cal);
            proof { lemma_index_frames_view_push(out@, c); }
            out.push(c);
            prev = copy_frame(&cal);
            since = 0;
            let delta = zip_encode_index_frame(&data_frames[i], &prev, n_symbols);
            proof { lemma_index_frames_view_push(out@, delta); }
            out.push(delta);
            proof {
                lead = seq![calv, zip_encode_idx(rest[0], calv, n_symbols)];
                assert(index_frames_view(out@) =~= before + lead);
            }
        } else {
            let delta = zip_encode_index_frame(&data_frames[i], &prev, n_symbols);
            proof { lemma_index_frames_view_push(out@, delta); }
            out.push(delta);
            proof {
                lead = seq![zip_encode_idx(rest[0], prev@, n_symbols)];
                assert(index_frames_view(out@) =~= before + lead);
            }
        }
        prev = copy_frame(&data_frames[i]);
        since += 1;
        i += 1;
        proof {
            let tail = encode_idx_from(frames.skip(i as int), prev@, since as nat, n_symbols, recal_interval, calv);
            assert(step == lead + tail);
            assert(index_frames_view(out@) + tail =~= before + step);
        }
    }
    proof {
        assert(frames.skip(data_frames.len() as int) =~= Seq::<Seq<usize>>::empty());
        assert(index_frames_view(out@) + Seq::<Seq<usize>>::empty() =~= index_frames_view(out@));
    }
    out
}

/// Decode received index frames: the first frame is taken as calibration (its
/// length sets the calibration frame's) and skipped, as is each frame arriving
/// after `recal_interval` data frames when `recal_interval > 0`; every other
/// frame is added, bin by bin and modulo `n_symbols`, to the previous decoded
/// frame (or the calibration frame).
pub fn diff_decode_indices(received_frames: &[Vec<usize>], n_symbols: usize, recal_interval: usize) -> (r: Vec<Vec<usize>>)
    requires
        n_symbols > 0,
    ensures
        index_frames_view(r@) == spec_diff_decode_indices(index_frames_view(received_frames@), n_symbols, recal_interval),
{
    let ghost recv = index_frames_view(received_frames@);
    let cal_idx = calibration_index(n_symbols);
    let data_bins = if received_frames.len() == 0 { 0 } else { received_frames[0].len() };
    let cal = constant_frame(cal_idx, data_bins);
    let ghost calv = cal_index_frame(n_symbols, first_len(recv));
    assert(cal@ =~= calv);

    let mut out: Vec<Vec<usize>> = Vec::new();
    if received_frames.len() == 0 {
        assert(index_frames_view(out@) =~= Seq::<Seq<usize>>::empty());
        return out;
    }
    let mut prev: Vec<usize> = copy_frame(&cal);
    let mut since: usize = 0;
    proof {
        assert(recv.skip(1) =~= recv.drop_first());
        assert(index_frames_view(out@) + decode_idx_from(recv.skip(1), prev@, 0, n_symbols, recal_interval, calv)
            =~= spec_diff_decode_indices(recv, n_symbols, recal_interval));
    }

    let mut i: usize = 1;
    while i < received_frames.len()
        invariant
            n_symbols > 0,
            recv == index_frames_view(received_frames@),
            cal@ == calv,
            calv == cal_index_frame(n_symbols, first_len(recv)),
            1 <= i <= received_frames.len(),
            since < i,
            index_frames_view(out@) + decode_idx_from(recv.skip(i as int), prev@, since as nat, n_symbols, recal_interval, calv)
                == spec_diff_decode_indices(recv, n_symbols, recal_interval),
        decreases received_frames.len() - i,
    {
        let ghost before = index_frames_view(out@);
        let ghost rest = recv.skip(i as int);
        let ghost step = decode_idx_from(rest, prev@, since as nat, n_symbols, recal_interval, calv);
        assert(rest[0] == received_frames@[i as int]@);
        assert(rest.drop_first() =~= recv.skip(i + 1));
        if recal_interval > 0 && since >= recal_interval {
            prev = copy_frame(&cal);
            since = 0;
            i += 1;
            proof {
                assert(index_frames_view(out@) + decode_idx_from(recv.skip(i as int), prev@, since as nat, n_symbols, recal_interval, calv)
                    =~= before + step);
            }
        } else {
            let abs_frame = zip_decode_index_frame(&received_frames[i], &prev, n_symbols);
            prev = copy_frame(&abs_frame);
            proof { lemma_index_frames_view_push(out@, abs_frame); }
            out.push(abs_frame);
            since += 1;
            i += 1;
            proof {
                let tail = decode_idx_from(recv.skip(i as int), prev@, since as nat, n_symbols, recal_interval, calv);
                assert(step == seq![prev@] + tail);
                assert(index_frames_view(out@) + tail =~= before + step);
            }
        }
    }
    proof {
        assert(recv.skip(received_frames.len() as int) =~= Seq::<Seq<usize>>::empty());
        assert(index_frames_view(out@) + Seq::<Seq<usize>>::empty() =~= index_frames_view(out@));
    }
    out
}

/// Every frame has `n` indices, each below `n_symbols`.
pub open spec fn index_frames_well_formed(frames: Seq<Seq<usize>>, n: nat, n_symbols: usize) -> bool {
    forall|k: int| 0 <= k < frames.len() ==> {
        &&& #[trigger] frames[k].len() == n
        &&& forall|b: int| 0 <= b < n ==> #[trigger] frames[k][b] < n_symbols
    }
}

/// Decoding a delta frame against the frame it was encoded from gives the
/// frame that was encoded.
proof fn lemma_zip_idx_roundtrip(cur: Seq<usize>, prev: Seq<usize>, n_symbols: usize)
    requires
        n_symbols > 0,
        cur.len() == prev.len(),
        forall|b: int| 0 <= b < cur.len() ==> #[trigger] cur[b] < n_symbols,
    ensures
        zip_decode_idx(zip_encode_idx(cur, prev, n_symbols), prev, n_symbols) == cur,
{
    let e = zip_encode_idx(cur, prev, n_symbols);
    assert forall|b: int| 0 <= b < cur.len() implies zip_decode_idx(e, prev, n_symbols)[b] == cur[b] by {
        crate::differential::lemma_delta_roundtrip(
            (cur[b], 0usize), (prev[b], 0usize), n_symbols, 1, crate::differential::DiffMode::AmpOnly);
    }
    assert(zip_decode_idx(e, prev, n_symbols) =~= cur);
}

/// The decoder, started in the encoder's state, recovers the frames.
proof fn lemma_decode_encode_idx_from(
    frames: Seq<Seq<usize>>,
    prev: Seq<usize>,
    since: nat,
    n_symbols: usize,
    recal_interval: usize,
    cal: Seq<usize>,
)
    requires
        n_symbols > 0,
        prev.len() == cal.len(),
        index_frames_well_formed(frames, cal.len(), n_symbols),
    ensures
        decode_idx_from(encode_idx_from(frames, prev, since, n_symbols, recal_interval, cal), prev, since, n_symbols, recal_interval, cal) == frames,
    decreases frames.len(),
{
    if frames.len() == 0 {
        assert(encode_idx_from(frames, prev, since, n_symbols, recal_interval, cal) =~= Seq::<Seq<usize>>::empty());
    } else {
        let f0 = frames[0];
        let rest = frames.drop_first();
        assert(index_frames_well_formed(rest, cal.len(), n_symbols)) by {
            assert forall|k: int| 0 <= k < rest.len() implies #[trigger] rest[k] == frames[k + 1] by {}
        }
        assert(f0.len() == cal.len());
        let enc = encode_idx_from(frames, prev, since, n_symbols, recal_interval, cal);
        if recal_due(recal_interval, since) {
            let tail = encode_idx_from(rest, f0, 1, n_symbols, recal_interval, cal);
            assert(enc == seq![cal, zip_encode_idx(f0, cal, n_symbols)] + tail);
            let e1 = enc.drop_first();
            assert(e1 =~= seq![zip_encode_idx(f0, cal, n_symbols)] + tail);
            assert(e1.drop_first() =~= tail);
            lemma_zip_idx_roundtrip(f0, cal, n_symbols);
            lemma_decode_encode_idx_from(rest, f0, 1, n_symbols, recal_interval, cal);
            assert(e1[0] == zip_encode_idx(f0, cal, n_symbols));
            assert(!recal_due(recal_interval, 0));
            assert(decode_idx_from(e1, cal, 0, n_symbols, recal_interval, cal)
                == seq![f0] + decode_idx_from(e1.drop_first(), f0, 1, n_symbols, recal_interval, cal));
            assert(decode_idx_from(enc, prev, since, n_symbols, recal_interval, cal) =~= seq![f0] + rest);
        } else {
            let tail = encode_idx_from(rest, f0, since + 1, n_symbols, recal_interval, cal);
            assert(enc == seq![zip_encode_idx(f0, prev, n_symbols)] + tail);
            assert(enc.drop_first() =~= tail);
            lemma_zip_idx_roundtrip(f0, prev, n_symbols);
            lemma_decode_encode_idx_from(rest, f0, since + 1, n_symbols, recal_interval, cal);
            assert(decode_idx_from(enc, prev, since, n_symbols, recal_interval, cal) =~= seq![f0] + rest);
        }
        assert(seq![f0] + rest =~= frames);
    }
}

/// Law: decoding what `diff_encode_indices` sends gives back the index frames,
/// for frames of equal length with every index below `n_symbols`.
pub proof fn lemma_diff_indices_roundtrip(frames: Seq<Seq<usize>>, n_symbols: usize, recal_interval: usize)
    requires
        n_symbols > 0,
        index_frames_well_formed(frames, first_len(frames), n_symbols),
    ensures
        spec_diff_decode_indices(spec_diff_encode_indices(frames, n_symbols, recal_interval), n_symbols, recal_interval) == frames,
{
    let cal = cal_index_frame(n_symbols, first_len(frames));
    let enc = spec_diff_encode_indices(frames, n_symbols, recal_interval);
    assert(enc[0] == cal);
    assert(first_len(enc) == first_len(frames));
    assert(enc.drop_first() =~= encode_idx_from(frames, cal, 0, n_symbols, recal_interval, cal));
    lemma_decode_encode_idx_from(frames, cal, 0, n_symbols, recal_interval, cal);
}

/// What a receiver recovers from demodulated constellation frames of a
/// stream of `expected` frames. With differential coding: nothing when fewer
/// arrived, otherwise the first `expected` frames decoded. Without it: all the
/// frames as they are. Either way the indices are laid end to end, turned
/// into bytes and deframed.
pub open spec fn spec_decode_constellation_frames(rx: Seq<Seq<usize>>, expected: int, cfg: ConstellationConfig) -> Option<Seq<u8>> {
    if cfg.use_diff && rx.len() < expected {
        None
    } else {
        let decoded = if cfg.use_diff {
            spec_diff_decode_indices(rx.subrange(0, expected), pow2(cfg.spec_bits_per_symbol()) as usize, cfg.recal_interval)
        } else {
            rx
        };
        spec_deframed(spec_constellation_symbols_to_bytes(decoded.flatten(), cfg), cfg.config.sync_magic@)
    }
}

/// Recover the payload from demodulated constellation frames of a stream of
/// `expected_frames` frames, or `None` when too few arrived (differential
/// coding) or their bytes hold no intact packet.
pub fn decode_constellation_frames(rx_frames: &[Vec<usize>], expected_frames: usize, cfg: &ConstellationConfig) -> (r: Option<Vec<u8>>)
    ensures
        r is Some <==> spec_decode_constellation_frames(frame_views(rx_frames@), expected_frames as int, *cfg) is Some,
        r matches Some(p) ==> spec_decode_constellation_frames(frame_views(rx_frames@), expected_frames as int, *cfg) == Some(p@),
{
    let indices = if cfg.use_diff {
        if rx_frames.len() < expected_frames {
            return None;
        }
        let window = &rx_frames[0..expected_frames];
        let usable = cfg.usable_symbols();
        let decoded = diff_decode_indices(window, usable, cfg.recal_interval);
        proof {
            assert(index_frames_view(window@) =~= frame_views(rx_frames@).subrange(0, expected_frames as int));
            assert(frame_views(decoded@) =~= index_frames_view(decoded@));
        }
        flatten_frames(decoded.as_slice())
    } else {
        flatten_frames(rx_frames)
    };
    let raw = constellation_symbols_to_bytes(indices.as_slice(), cfg);
    match deframe(raw.as_slice(), &cfg.config) {
        Ok(p) => Some(p),
        Err(_) => None,
    }
}

/// The frames sent for index frames `m..`, from the encoder's state before `m`.
proof fn lemma_encode_idx_from_layout(
    frames: Seq<Seq<usize>>,
    m: int,
    n_symbols: usize,
    l: usize,
    cal: Seq<usize>,
)
    requires
        0 <= m <= frames.len(),
    ensures
        ({
            let seg = encode_idx_from(
                frames.skip(m),
                if m == 0 { cal } else { frames[m - 1] },
                frames_since_calibration(m, l),
                n_symbols,
                l,
                cal,
            );
            &&& seg.len() == segment_start(frames.len() as int, l) - segment_start(m, l)
            &&& forall|j: int| #![trigger data_slot(j, l)] m <= j < frames.len() ==>
                seg[data_slot(j, l) - 1 - segment_start(m, l)] == zip_encode_idx(
                    frames[j],
                    if coded_from_calibration(j, l) { cal } else { frames[j - 1] },
                    n_symbols,
                )
            &&& forall|j: int| #![trigger data_slot(j, l)] m <= j < frames.len() && j > 0 && coded_from_calibration(j, l) ==>
                seg[data_slot(j, l) - 2 - segment_start(m, l)] == cal
        }),
    decreases frames.len() - m,
{
    let n = frames.len() as int;
    let rest = frames.skip(m);
    let prev = if m == 0 { cal } else { frames[m - 1] };
    let seg = encode_idx_from(rest, prev, frames_since_calibration(m, l), n_symbols, l, cal);
    if m < n {
        lemma_encode_idx_from_layout(frames, m + 1, n_symbols, l, cal);
        lemma_schedule_step(m, l);
        assert(rest[0] == frames[m]);
        assert(rest.drop_first() =~= frames.skip(m + 1));
        let seg1 = encode_idx_from(frames.skip(m + 1), frames[m], frames_since_calibration(m + 1, l), n_symbols, l, cal);
        let lead: Seq<Seq<usize>> = if m > 0 && coded_from_calibration(m, l) {
            seq![cal, zip_encode_idx(frames[m], cal, n_symbols)]
        } else {
            seq![zip_encode_idx(frames[m], prev, n_symbols)]
        };
        assert(seg == lead + seg1);
        assert(lead.len() == segment_start(m + 1, l) - segment_start(m, l));
        assert forall|j: int| #![trigger data_slot(j, l)] m <= j < n implies
            seg[data_slot(j, l) - 1 - segment_start(m, l)] == zip_encode_idx(
                frames[j],
                if coded_from_calibration(j, l) { cal } else { frames[j - 1] },
                n_symbols,
            ) by {
            let idx = data_slot(j, l) - 1 - segment_start(m, l);
            if j == m {
                if m > 0 && coded_from_calibration(m, l) {
                    assert(idx == 1);
                    assert(seg[1] == lead[1]);
                } else {
                    assert(idx == 0);
                    assert(seg[0] == lead[0]);
                }
            } else {
                lemma_slot_mono(m + 1, j, l);
                lemma_slot_before_end(j, n, l);
                assert(seg[idx] == seg1[idx - lead.len()]);
            }
        }
        assert forall|j: int| #![trigger data_slot(j, l)] m <= j < n && j > 0 && coded_from_calibration(j, l) implies
            seg[data_slot(j, l) - 2 - segment_start(m, l)] == cal by {
            let idx = data_slot(j, l) - 2 - segment_start(m, l);
            if j == m {
                assert(idx == 0);
                assert(seg[0] == lead[0]);
            } else {
                lemma_schedule_step(j - 1, l);
                if j > m + 1 {
                    lemma_slot_mono(m + 1, j - 1, l);
                }
                lemma_slot_before_end(j, n, l);
                assert(seg[idx] == seg1[idx - lead.len()]);
            }
        }
    }
}

/// Law: the layout of a differentially coded stream of index frames. It opens
/// with a calibration frame (every index `n_symbols / 2`, as long as the first
/// data frame); data frame `j` is sent at `data_slot(j)` as
/// `(index - base) mod n_symbols` per bin, where the base is the calibration
/// frame when `j` is coded from calibration (a calibration frame then sits just
/// before it, so recalibration resets the baseline whatever came before) and
/// data frame `j - 1` otherwise; the last data frame is the last frame sent.
pub proof fn lemma_diff_indices_layout(frames: Seq<Seq<usize>>, n_symbols: usize, recal_interval: usize)
    ensures
        ({
            let e = spec_diff_encode_indices(frames, n_symbols, recal_interval);
            let l = recal_interval;
            let cal = cal_index_frame(n_symbols, first_len(frames));
            &&& e[0] == cal
            &&& e.len() == if frames.len() == 0 { 1 } else { data_slot(frames.len() - 1, l) + 1 }
            &&& forall|j: int| 0 <= j < frames.len() ==> #[trigger] e[data_slot(j, l)] == zip_encode_idx(
                frames[j],
                if coded_from_calibration(j, l) { cal } else { frames[j - 1] },
                n_symbols,
            )
            &&& forall|j: int| 0 <= j < frames.len() && coded_from_calibration(j, l) ==>
                #[trigger] e[data_slot(j, l) - 1] == cal
        }),
{
    let l = recal_interval;
    let n = frames.len() as int;
    let cal = cal_index_frame(n_symbols, first_len(frames));
    let e = spec_diff_encode_indices(frames, n_symbols, recal_interval);
    lemma_encode_idx_from_layout(frames, 0, n_symbols, l, cal);
    assert(frames.skip(0) =~= frames);
    let seg = encode_idx_from(frames, cal, 0, n_symbols, l, cal);
    assert(e == seq![cal] + seg);
    if n > 0 {
        lemma_schedule_step(n - 1, l);
    }
    assert forall|j: int| 0 <= j < n implies #[trigger] e[data_slot(j, l)] == zip_encode_idx(
        frames[j],
        if coded_from_calibration(j, l) { cal } else { frames[j - 1] },
        n_symbols,
    ) by {
        lemma_slot_mono(0, j, l);
        lemma_slot_before_end(j, n, l);
        assert(seg[data_slot(j, l) - 1 - segment_start(0, l)] == zip_encode_idx(
            frames[j],
            if coded_from_calibration(j, l) { cal } else { frames[j - 1] },
            n_symbols,
        ));
        assert(e[data_slot(j, l)] == seg[data_slot(j, l) - 1]);
    }
    assert forall|j: int| 0 <= j < n && coded_from_calibration(j, l) implies
        #[trigger] e[data_slot(j, l) - 1] == cal by {
        lemma_slot_mono(0, j, l);
        lemma_slot_before_end(j, n, l);
        if j > 0 {
            lemma_schedule_step(j - 1, l);
            lemma_slot_mono(0, j - 1, l);
            assert(seg[data_slot(j, l) - 2 - segment_start(0, l)] == cal);
            assert(e[data_slot(j, l) - 1] == seg[data_slot(j, l) - 2]);
        }
    }
}

/// The index frames decoded from the received frames at and after data frame
/// `m`'s slot, from the decoder's state there with `prev` as the last decoded
/// frame.
proof fn lemma_decode_idx_from_layout(
    recv: Seq<Seq<usize>>,
    m: int,
    prev: Seq<usize>,
    n_symbols: usize,
    l: usize,
    cal: Seq<usize>,
)
    requires
        m >= 0,
        data_slot(m, l) <= recv.len(),
        coded_from_calibration(m, l) ==> prev == cal,
    ensures
        ({
            let out = decode_idx_from(recv.skip(data_slot(m, l)), prev, since_at_slot(m, l), n_symbols, l, cal);
            &&& data_slot(m + out.len(), l) >= recv.len()
            &&& forall|k: int| 0 <= k < out.len() ==> #[trigger] data_slot(m + k, l) < recv.len()
            &&& forall|k: int| 0 <= k < out.len() ==> #[trigger] out[k] == zip_decode_idx(
                recv[data_slot(m + k, l)],
                if k == 0 { prev } else if coded_from_calibration(m + k, l) { cal } else { out[k - 1] },
                n_symbols,
            )
        }),
    decreases recv.len() - data_slot(m, l),
{
    let p = data_slot(m, l);
    let rest = recv.skip(p);
    let out = decode_idx_from(rest, prev, since_at_slot(m, l), n_symbols, l, cal);
    lemma_schedule_step(m, l);
    lemma_schedule_step(m + 1, l);
    if p < recv.len() {
        assert(rest[0] == recv[p]);
        assert(rest.drop_first() =~= recv.skip(p + 1));
        let d0 = zip_decode_idx(recv[p], prev, n_symbols);
        let tail = decode_idx_from(recv.skip(p + 1), d0, frames_since_calibration(m + 1, l), n_symbols, l, cal);
        assert(out == seq![d0] + tail);
        assert(out[0] == d0);
        if coded_from_calibration(m + 1, l) {
            if p + 1 == recv.len() {
                assert(recv.skip(p + 1) =~= Seq::<Seq<usize>>::empty());
                assert(out =~= seq![d0]);
            } else {
                let r1 = recv.skip(p + 1);
                assert(r1.drop_first() =~= recv.skip(p + 2));
                lemma_decode_idx_from_layout(recv, m + 1, cal, n_symbols, l, cal);
                let out1 = decode_idx_from(recv.skip(p + 2), cal, 0, n_symbols, l, cal);
                assert(tail == out1);
                assert(out =~= seq![d0] + out1);
                assert forall|k: int| 1 <= k < out.len() implies #[trigger] data_slot(m + k, l) < recv.len() by {
                    assert(data_slot(m + 1 + (k - 1), l) < recv.len());
                }
                assert forall|k: int| 1 <= k < out.len() implies #[trigger] out[k] == zip_decode_idx(
                    recv[data_slot(m + k, l)],
                    if coded_from_calibration(m + k, l) { cal } else { out[k - 1] },
                    n_symbols,
                ) by {
                    assert(out[k] == out1[k - 1]);
                    assert(m + 1 + (k - 1) == m + k);
                    if k > 1 {
                        assert(out[k - 1] == out1[k - 2]);
                    }
                }
                assert(m + 1 + out1.len() == m + out.len());
            }
        } else {
            lemma_decode_idx_from_layout(recv, m + 1, d0, n_symbols, l, cal);
            assert(out =~= seq![d0] + tail);
            assert forall|k: int| 1 <= k < out.len() implies #[trigger] data_slot(m + k, l) < recv.len() by {
                assert(data_slot(m + 1 + (k - 1), l) < recv.len());
            }
            assert forall|k: int| 1 <= k < out.len() implies #[trigger] out[k] == zip_decode_idx(
                recv[data_slot(m + k, l)],
                if coded_from_calibration(m + k, l) { cal } else { out[k - 1] },
                n_symbols,
            ) by {
                assert(out[k] == tail[k - 1]);
                assert(m + 1 + (k - 1) == m + k);
                if k > 1 {
                    assert(out[k - 1] == tail[k - 2]);
                }
            }
            assert(m + 1 + tail.len() == m + out.len());
        }
        assert forall|k: int| 0 <= k < out.len() implies #[trigger] data_slot(m + k, l) < recv.len() by {
            if k == 0 {
                assert(data_slot(m + k, l) == p);
            }
        }
    } else {
        assert(rest =~= Seq::<Seq<usize>>::empty());
    }
}

/// Law: what the index decoder makes of any received frames. It skips the
/// first frame (calibration) and every slot where a calibration frame is due;
/// data frame `j` is decoded from the frame at `data_slot(j)` as
/// `(base + received) mod n_symbols` per bin, where the base is the
/// calibration frame (every index `n_symbols / 2`) when `j` is coded from
/// calibration, whatever was received before, and decoded frame `j - 1`
/// otherwise; there is one decoded frame for each data slot the received
/// frames reach.
pub proof fn lemma_diff_decode_indices_layout(recv: Seq<Seq<usize>>, n_symbols: usize, recal_interval: usize)
    ensures
        ({
            let d = spec_diff_decode_indices(recv, n_symbols, recal_interval);
            let l = recal_interval;
            let cal = cal_index_frame(n_symbols, first_len(recv));
            &&& data_slot(d.len() as int, l) >= recv.len()
            &&& forall|j: int| 0 <= j < d.len() ==> #[trigger] data_slot(j, l) < recv.len()
            &&& forall|j: int| 0 <= j < d.len() ==> #[trigger] d[j] == zip_decode_idx(
                recv[data_slot(j, l)],
                if coded_from_calibration(j, l) { cal } else { d[j - 1] },
                n_symbols,
            )
        }),
{
    let l = recal_interval;
    let cal = cal_index_frame(n_symbols, first_len(recv));
    if recv.len() > 0 {
        assert(recv.skip(1) =~= recv.drop_first());
        lemma_decode_idx_from_layout(recv, 0, cal, n_symbols, l, cal);
        let d = spec_diff_decode_indices(recv, n_symbols, recal_interval);
        let out = decode_idx_from(recv.skip(data_slot(0, l)), cal, since_at_slot(0, l), n_symbols, l, cal);
        assert(d == out);
        assert forall|j: int| 0 <= j < d.len() implies #[trigger] data_slot(j, l) < recv.len() by {
            assert(data_slot(0 + j, l) < recv.len());
        }
        assert forall|j: int| 0 <= j < d.len() implies #[trigger] d[j] == zip_decode_idx(
            recv[data_slot(j, l)],
            if coded_from_calibration(j, l) { cal } else { d[j - 1] },
            n_symbols,
        ) by {
            assert(0 + j == j);
            assert(d[j] == out[j]);
        }
    }
}

} // verus!
