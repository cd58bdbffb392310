//! Differential encoding of pilot-scheme frames.
//!
//! Frame 0 is a calibration frame (every data bin at the midpoint symbol).
//! Each data frame is sent as the per-bin difference from the previous frame,
//! modulo the number of levels. When `recal_interval > 0`, a calibration frame
//! is re-sent after every `recal_interval` data frames and resets the baseline.

use vstd::prelude::*;
use vstd::arithmetic::div_mod::{lemma_add_mod_noop_right, lemma_fundamental_div_mod_converse, lemma_small_mod};

use crate::framing::{deframe, spec_deframed};
use crate::modulation::{flatten_frames, frame_views};
use crate::pilot::{pilot_symbols_to_bytes, spec_pilot_symbols_to_bytes, PilotConfig};

verus! {

/// What gets delta-encoded.
#[derive(Debug, Clone, Copy, PartialEq, Eq, Structural)]
pub enum DiffMode {
    /// Amplitude as a delta, phase absolute.
    AmpOnly,
    /// Phase as a delta, amplitude absolute.
    PhaseOnly,
    /// Both as deltas.
    Both,
}

impl DiffMode {
    /// Whether the amplitude index is delta-encoded.
    pub open spec fn codes_amp(self) -> bool {
        self != DiffMode::PhaseOnly
    }

    /// Whether the phase index is delta-encoded.
    pub open spec fn codes_phase(self) -> bool {
        self != DiffMode::AmpOnly
    }
}

/// Differential encoding configuration.
#[derive(Debug, Clone, Copy)]
pub struct DiffConfig {
    /// Underlying pilot configuration (bins, levels, spacing).
    pub pilot: PilotConfig,
    /// Data frames between re-calibration frames (0 = calibrate only at the start).
    pub recal_interval: usize,
    /// What to delta-encode.
    pub diff_mode: DiffMode,
}

/// `(c - p) mod l`, the Euclidean remainder, for `l > 0`.
pub open spec fn mod_sub(c: usize, p: usize, l: usize) -> usize {
    ((c as int - p as int) % (l as int)) as usize
}

/// The calibration symbol: the midpoint of each level range (0 for one level).
pub open spec fn spec_calibration_symbol(amp_levels: usize, phase_levels: usize) -> (usize, usize) {
    (
        if amp_levels > 1 { (amp_levels / 2) as usize } else { 0usize },
        if phase_levels > 1 { (phase_levels / 2) as usize } else { 0usize },
    )
}

/// The symbol sent for `current` after `previous`.
pub open spec fn spec_encode_delta(
    current: (usize, usize),
    previous: (usize, usize),
    amp_levels: usize,
    phase_levels: usize,
    mode: DiffMode,
) -> (usize, usize) {
    (
        if mode.codes_amp() { mod_sub(current.0, previous.0, amp_levels) } else { current.0 },
        if mode.codes_phase() { mod_sub(current.1, previous.1, phase_levels) } else { current.1 },
    )
}

/// The symbol recovered from `received` after `previous`.
pub open spec fn spec_decode_delta(
    received: (usize, usize),
    previous: (usize, usize),
    amp_levels: usize,
    phase_levels: usize,
    mode: DiffMode,
) -> (usize, usize) {
    (
        if mode.codes_amp() { ((previous.0 + received.0) % (amp_levels as int)) as usize } else { received.0 },
        if mode.codes_phase() { ((previous.1 + received.1) % (phase_levels as int)) as usize } else { received.1 },
    )
}

/// The calibration symbol for the given level counts.
pub fn calibration_symbol(amp_levels: usize, phase_levels: usize) -> (r: (usize, usize))
    ensures
        r == spec_calibration_symbol(amp_levels, phase_levels),
{
    let amp_mid = if amp_levels > 1 { amp_levels / 2 } else { 0 };
    let phase_mid = if phase_levels > 1 { phase_levels / 2 } else { 0 };
    (amp_mid, phase_mid)
}

/// `(c - p) mod l` without signed arithmetic.
pub(crate) fn mod_diff(c: usize, p: usize, l: usize) -> (r: usize)
    requires
        l > 0,
    ensures
        r == mod_sub(c, p, l),
        r < l,
{
    if c >= p {
        (c - p) % l
    } else {
        let d = (p - c) % l;
        proof {
            let x = (p - c) as int;
            let li = l as int;
            let q = x / li;
            assert(x == q * li + (d as int)) by (nonlinear_arith)
                requires li > 0, q == x / li, d as int == x % li;
            if d == 0 {
                assert(-x == (-q) * li + 0) by (nonlinear_arith)
                    requires x == q * li + 0;
                lemma_fundamental_div_mod_converse(-x, li, -q, 0);
            } else {
                assert(-x == (-q - 1) * li + (li - d)) by (nonlinear_arith)
                    requires x == q * li + (d as int);
                lemma_fundamental_div_mod_converse(-x, li, -q - 1, li - d);
            }
        }
        if d == 0 { 0 } else { l - d }
    }
}

/// Encode a data symbol as a delta from the previous symbol, wrapped into the
/// level range, for the components the mode delta-encodes.
pub fn encode_delta(
    current: (usize, usize),
    previous: (usize, usize),
    amp_levels: usize,
    phase_levels: usize,
    mode: DiffMode,
) -> (r: (usize, usize))
    requires
        mode.codes_amp() ==> amp_levels > 0,
        mode.codes_phase() ==> phase_levels > 0,
    ensures
        r == spec_encode_delta(current, previous, amp_levels, phase_levels, mode),
{
    let amp_sym = match mode {
        DiffMode::PhaseOnly => current.0,
        _ => mod_diff(current.0, previous.0, amp_levels),
    };
    let phase_sym = match mode {
        DiffMode::AmpOnly => current.1,
        _ => mod_diff(current.1, previous.1, phase_levels),
    };
    (amp_sym, phase_sym)
}

/// Decode a delta symbol back to an absolute one, given the previous symbol.
pub fn decode_delta(
    received: (usize, usize),
    previous: (usize, usize),
    amp_levels: usize,
    phase_levels: usize,
    mode: DiffMode,
) -> (r: (usize, usize))
    requires
        mode.codes_amp() ==> amp_levels > 0,
        mode.codes_phase() ==> phase_levels > 0,
    ensures
        r == spec_decode_delta(received, previous, amp_levels, phase_levels, mode),
{
    let amp_sym = match mode {
        DiffMode::PhaseOnly => received.0,
        _ => add_mod(previous.0, received.0, amp_levels),
    };
    let phase_sym = match mode {
        DiffMode::AmpOnly => received.1,
        _ => add_mod(previous.1, received.1, phase_levels),
    };
    (amp_sym, phase_sym)
}

/// `x` is a valid symbol for the levels, in the components the mode delta-encodes.
pub open spec fn symbol_in_range(x: (usize, usize), amp_levels: usize, phase_levels: usize, mode: DiffMode) -> bool {
    &&& mode.codes_amp() ==> x.0 < amp_levels
    &&& mode.codes_phase() ==> x.1 < phase_levels
}

/// Law: decoding the delta of `current` after `previous` gives back `current`,
/// for symbols within the level ranges.
pub proof fn lemma_delta_roundtrip(
    current: (usize, usize),
    previous: (usize, usize),
    amp_levels: usize,
    phase_levels: usize,
    mode: DiffMode,
)
    requires
        mode.codes_amp() ==> amp_levels > 0,
        mode.codes_phase() ==> phase_levels > 0,
        symbol_in_range(current, amp_levels, phase_levels, mode),
    ensures
        spec_decode_delta(
            spec_encode_delta(current, previous, amp_levels, phase_levels, mode),
            previous,
            amp_levels,
            phase_levels,
            mode,
        ) == current,
{
    if mode.codes_amp() {
        lemma_mod_delta(current.0, previous.0, amp_levels);
    }
    if mode.codes_phase() {
        lemma_mod_delta(current.1, previous.1, phase_levels);
    }
}

/// `(p + ((c - p) mod l)) mod l == c` for `c < l`.
proof fn lemma_mod_delta(c: usize, p: usize, l: usize)
    requires
        l > 0,
        c < l,
    ensures
        ((p + mod_sub(c, p, l)) % (l as int)) as usize == c,
{
    let d = (c as int - p as int) % (l as int);
    assert(0 <= d < l);
    lemma_add_mod_noop_right(p as int, c as int - p as int, l as int);
    lemma_small_mod(c as nat, l as nat);
}

impl DiffConfig {
    /// The level counts the mode delta-encodes are positive and the bin plan is sound.
    pub open spec fn coding_ok(self) -> bool {
        &&& self.pilot.plan_ok()
        &&& self.diff_mode.codes_amp() ==> self.pilot.amp_levels > 0
        &&& self.diff_mode.codes_phase() ==> self.pilot.phase_levels > 0
    }

    /// The pilot throughput, `bits_per_frame * frames_per_sec`.
    pub open spec fn spec_base_bps(self) -> int {
        self.pilot.spec_bits_per_frame() * self.pilot.config.spec_frames_per_sec()
    }

    /// The pilot throughput can be computed: the pilot arithmetic stays in range.
    pub open spec fn throughput_computable(self) -> bool {
        &&& self.pilot.plan_ok()
        &&& self.pilot.levels_ok()
        &&& self.pilot.config.frame_samples > 0
        &&& self.pilot.spec_bits_per_frame() <= usize::MAX
        &&& self.spec_base_bps() <= usize::MAX
        &&& self.spec_base_bps() * self.recal_interval <= usize::MAX
        &&& self.recal_interval < usize::MAX
    }

    /// Effective throughput: one frame in every `recal_interval + 1` is a
    /// calibration frame carrying no data.
    pub open spec fn spec_effective_bps(self) -> int {
        if self.recal_interval == 0 {
            self.spec_base_bps()
        } else {
            self.spec_base_bps() * self.recal_interval / (self.recal_interval + 1)
        }
    }

    /// Effective throughput in bits per second, accounting for calibration frames.
    /// With `recal_interval == 0` only the first frame calibrates, which is
    /// negligible over a long stream.
    pub fn effective_throughput_bps(&self) -> (r: usize)
        requires
            self.throughput_computable(),
        ensures
            r == self.spec_effective_bps(),
    {
        let base = self.pilot.throughput_bps();
        if self.recal_interval == 0 {
            base
        } else {
            base * self.recal_interval / (self.recal_interval + 1)
        }
    }

    /// Effective throughput in bytes per second.
    pub fn effective_throughput_bytes(&self) -> (r: usize)
        requires
            self.throughput_computable(),
        ensures
            r == self.spec_effective_bps() / 8,
    {
        self.effective_throughput_bps() / 8
    }
}

/// The contents of a list of frames.
pub open spec fn frames_view(v: Seq<Vec<(usize, usize)>>) -> Seq<Seq<(usize, usize)>> {
    Seq::new(v.len(), |i: int| v[i]@)
}

/// Length of the shorter of two frames: how far a pairwise walk goes.
pub open spec fn min_len(a: Seq<(usize, usize)>, b: Seq<(usize, usize)>) -> nat {
    if a.len() <= b.len() { a.len() } else { b.len() }
}

/// Delta-encode `cur` against `prev`, bin by bin, over their common length.
pub open spec fn zip_encode(cur: Seq<(usize, usize)>, prev: Seq<(usize, usize)>, cfg: DiffConfig) -> Seq<(usize, usize)> {
    Seq::new(
        min_len(cur, prev),
        |i: int| spec_encode_delta(cur[i], prev[i], cfg.pilot.amp_levels, cfg.pilot.phase_levels, cfg.diff_mode),
    )
}

/// Undo `zip_encode`: decode `recv` against `prev`, bin by bin.
pub open spec fn zip_decode(recv: Seq<(usize, usize)>, prev: Seq<(usize, usize)>, cfg: DiffConfig) -> Seq<(usize, usize)> {
    Seq::new(
        min_len(recv, prev),
        |i: int| spec_decode_delta(recv[i], prev[i], cfg.pilot.amp_levels, cfg.pilot.phase_levels, cfg.diff_mode),
    )
}

/// The calibration frame: the calibration symbol in every data bin.
pub open spec fn cal_frame(cfg: DiffConfig) -> Seq<(usize, usize)> {
    Seq::new(
        cfg.pilot.spec_data_bins() as nat,
        |i: int| spec_calibration_symbol(cfg.pilot.amp_levels, cfg.pilot.phase_levels),
    )
}

/// After `since` data frames without calibration, the next frame is a calibration frame.
pub open spec fn needs_recal(cfg: DiffConfig, since: nat) -> bool {
    cfg.recal_interval > 0 && since >= cfg.recal_interval
}

/// Frames sent for `frames`, given the previous frame and the data frames since
/// the last calibration.
pub open spec fn encode_from(
    frames: Seq<Seq<(usize, usize)>>,
    prev: Seq<(usize, usize)>,
    since: nat,
    cfg: DiffConfig,
) -> Seq<Seq<(usize, usize)>>
    decreases frames.len(),
{
    if frames.len() == 0 {
        Seq::empty()
    } else if needs_recal(cfg, since) {
        seq![cal_frame(cfg), zip_encode(frames[0], cal_frame(cfg), cfg)]
            + encode_from(frames.drop_first(), frames[0], 1, cfg)
    } else {
        seq![zip_encode(frames[0], prev, cfg)] + encode_from(frames.drop_first(), frames[0], since + 1, cfg)
    }
}

/// Data frames recovered from received frames, given the previous decoded frame
/// and the data frames since the last calibration.
pub open spec fn decode_from(
    recv: Seq<Seq<(usize, usize)>>,
    prev: Seq<(usize, usize)>,
    since: nat,
    cfg: DiffConfig,
) -> Seq<Seq<(usize, usize)>>
    decreases recv.len(),
{
    if recv.len() == 0 {
        Seq::empty()
    } else if needs_recal(cfg, since) {
        decode_from(recv.drop_first(), cal_frame(cfg), 0, cfg)
    } else {
        seq![zip_decode(recv[0], prev, cfg)]
            + decode_from(recv.drop_first(), zip_decode(recv[0], prev, cfg), since + 1, cfg)
    }
}

/// Frames to transmit for `frames`: a leading calibration frame, then the
/// delta frames with calibration frames inserted.
pub open spec fn spec_diff_encode_frames(frames: Seq<Seq<(usize, usize)>>, cfg: DiffConfig) -> Seq<Seq<(usize, usize)>> {
    seq![cal_frame(cfg)] + encode_from(frames, cal_frame(cfg), 0, cfg)
}

/// Data frames from received frames; the first received frame is calibration.
pub open spec fn spec_diff_decode_frames(recv: Seq<Seq<(usize, usize)>>, cfg: DiffConfig) -> Seq<Seq<(usize, usize)>> {
    if recv.len() == 0 {
        Seq::empty()
    } else {
        decode_from(recv.drop_first(), cal_frame(cfg), 0, cfg)
    }
}

/// A frame of `n` copies of `sym`.
pub(crate) fn constant_frame<T: Copy>(sym: T, n: usize) -> (r: Vec<T>)
    ensures
        r@ == Seq::new(n as nat, |i: int| sym),
{
    let mut out: Vec<T> = Vec::new();
    let mut i: usize = 0;
    while i < n
        invariant
            i <= n,
            out@ == Seq::new(i as nat, |k: int| sym),
        decreases n - i,
    {
        out.push(sym);
        i += 1;
        assert(out@ =~= Seq::new(i as nat, |k: int| sym));
    }
    out
}

/// A copy of a frame.
pub(crate) fn copy_frame<T: Copy>(frame: &[T]) -> (r: Vec<T>)
    ensures
        r@ == frame@,
{
    let mut out: Vec<T> = Vec::new();
    let mut i: usize = 0;
    while i < frame.len()
        invariant
            i <= frame.len(),
            out@ == frame@.take(i as int),
        decreases frame.len() - i,
    {
        out.push(frame[i]);
        i += 1;
        assert(out@ =~= frame@.take(i as int));
    }
    assert(out@ =~= frame@);
    out
}

/// `(a + b) mod l` without overflow.
pub(crate) fn add_mod(a: usize, b: usize, l: usize) -> (r: usize)
    requires
        l > 0,
    ensures
        r == (a + b) % (l as int),
{
    let x = a % l;
    let y = b % l;
    proof {
        vstd::arithmetic::div_mod::lemma_add_mod_noop(a as int, b as int, l as int);
    }
    if x >= l - y {
        let s = x - (l - y);
        proof {
            lemma_fundamental_div_mod_converse(x + y, l as int, 1, s as int);
        }
        s
    } else {
        proof {
            lemma_small_mod((x + y) as nat, l as nat);
        }
        x + y
    }
}

/// Delta-encode `cur` against `prev` over their common length.
fn zip_encode_frame(cur: &[(usize, usize)], prev: &[(usize, usize)], cfg: &DiffConfig) -> (r: Vec<(usize, usize)>)
    requires
        cfg.coding_ok(),
    ensures
        r@ == zip_encode(cur@, prev@, *cfg),
{
    let n = if cur.len() <= prev.len() { cur.len() } else { prev.len() };
    let mut out: Vec<(usize, usize)> = Vec::new();
    let mut i: usize = 0;
    while i < n
        invariant
            cfg.coding_ok(),
            n == min_len(cur@, prev@),
            i <= n,
            out@ == zip_encode(cur@, prev@, *cfg).take(i as int),
        decreases n - i,
    {
        let e = encode_delta(cur[i], prev[i], cfg.pilot.amp_levels, cfg.pilot.phase_levels, cfg.diff_mode);
        out.push(e);
        i += 1;
        assert(out@ =~= zip_encode(cur@, prev@, *cfg).take(i as int));
    }
    assert(out@ =~= zip_encode(cur@, prev@, *cfg));
    out
}

/// Decode `recv` against `prev` over their common length.
fn zip_decode_frame(recv: &[(usize, usize)], prev: &[(usize, usize)], cfg: &DiffConfig) -> (r: Vec<(usize, usize)>)
    requires
        cfg.coding_ok(),
    ensures
        r@ == zip_decode(recv@, prev@, *cfg),
{
    let n = if recv.len() <= prev.len() { recv.len() } else { prev.len() };
    let mut out: Vec<(usize, usize)> = Vec::new();
    let mut i: usize = 0;
    while i < n
        invariant
            cfg.coding_ok(),
            n == min_len(recv@, prev@),
            i <= n,
            out@ == zip_decode(recv@, prev@, *cfg).take(i as int),
        decreases n - i,
    {
        let d = decode_delta(recv[i], prev[i], cfg.pilot.amp_levels, cfg.pilot.phase_levels, cfg.diff_mode);
        out.push(d);
        i += 1;
        assert(out@ =~= zip_decode(recv@, prev@, *cfg).take(i as int));
    }
    assert(out@ =~= zip_decode(recv@, prev@, *cfg));
    out
}

proof fn lemma_frames_view_push(v: Seq<Vec<(usize, usize)>>, x: Vec<(usize, usize)>)
    ensures
        frames_view(v.push(x)) == frames_view(v).push(x@),
{
    assert(frames_view(v.push(x)) =~= frames_view(v).push(x@));
}

/// Encode data frames differentially: a calibration frame first, then each data
/// frame as its per-bin delta from the previous data frame (or from the
/// calibration frame), with a calibration frame re-sent after every
/// `recal_interval` data frames when `recal_interval > 0`.
pub fn diff_encode_frames(data_frames: &[Vec<(usize, usize)>], diff_cfg: &DiffConfig) -> (r: Vec<Vec<(usize, usize)>>)
    requires
        diff_cfg.coding_ok(),
    ensures
        frames_view(r@) == spec_diff_encode_frames(frames_view(data_frames@), *diff_cfg),
{
    let ghost frames = frames_view(data_frames@);
    let ghost cfg = *diff_cfg;
    let data_bins = diff_cfg.pilot.data_bins();
    let cal_sym = calibration_symbol(diff_cfg.pilot.amp_levels, diff_cfg.pilot.phase_levels);
    let cal = constant_frame(cal_sym, data_bins);
    assert(cal@ =~= cal_frame(cfg));

    let mut out: Vec<Vec<(usize, usize)>> = Vec::new();
    let mut prev: Vec<(usize, usize)> = copy_frame(&cal);
    let mut since: usize = 0;
    out.push(copy_frame(&cal));
    proof {
        lemma_frames_view_push(Seq::empty(), out@[0]);
        assert(frames_view(out@) =~= seq![cal_frame(cfg)]);
        assert(frames.skip(0) =~= frames);
    }

    let mut i: usize = 0;
    while i < data_frames.len()
        invariant
            cfg == *diff_cfg,
            cfg.coding_ok(),
            frames == frames_view(data_frames@),
            cal@ == cal_frame(cfg),
            i <= data_frames.len(),
            since <= i,
            frames_view(out@) + encode_from(frames.skip(i as int), prev@, since as nat, cfg)
                == spec_diff_encode_frames(frames, cfg),
        decreases data_frames.len() - i,
    {
        let ghost before = frames_view(out@);
        let ghost rest = frames.skip(i as int);
        let ghost step = encode_from(rest, prev@, since as nat, cfg);
        assert(rest[0] == data_frames@[i as int]@);
        assert(rest.drop_first() =~= frames.skip(i + 1));
        let ghost lead: Seq<Seq<(usize, usize)>>;
        if diff_cfg.recal_interval > 0 && since >= diff_cfg.recal_interval {
            let c = copy_frame(&cal);
            proof { lemma_frames_view_push(out@, c); }
            out.push(c);
            prev = copy_frame(&cal);
            since = 0;
            let delta = zip_encode_frame(&data_frames[i], &prev, diff_cfg);
            proof { lemma_frames_view_push(out@, delta); }
            out.push(delta);
            proof {
                lead = seq![cal_frame(cfg), zip_encode(rest[0], cal_frame(cfg), cfg)];
                assert(frames_view(out@) =~= before + lead);
            }
        } else {
            let delta = zip_encode_frame(&data_frames[i], &prev, diff_cfg);
            proof { lemma_frames_view_push(out@, delta); }
            out.push(delta);
            proof {
                lead = seq![zip_encode(rest[0], prev@, cfg)];
                assert(frames_view(out@) =~= before + lead);
            }
        }
        prev = copy_frame(&data_frames[i]);
        since += 1;
        i += 1;
        proof {
            let tail = encode_from(frames.skip(i as int), prev@, since as nat, cfg);
            assert(step == lead + tail);
            assert(frames_view(out@) + tail =~= before + step);
        }
    }
    proof {
        assert(frames.skip(data_frames.len() as int) =~= Seq::<Seq<(usize, usize)>>::empty());
        assert(frames_view(out@) + Seq::<Seq<(usize, usize)>>::empty() =~= frames_view(out@));
    }
    out
}

/// Decode received frames back to data frames: the first frame is taken as
/// calibration and skipped, as is each frame arriving after `recal_interval`
/// data frames when `recal_interval > 0`; every other frame is added, bin by
/// bin, to the previous decoded frame (or the calibration frame).
pub fn diff_decode_frames(received_frames: &[Vec<(usize, usize)>], diff_cfg: &DiffConfig) -> (r: Vec<Vec<(usize, usize)>>)
    requires
        diff_cfg.coding_ok(),
    ensures
        frames_view(r@) == spec_diff_decode_frames(frames_view(received_frames@), *diff_cfg),
{
    let ghost recv = frames_view(received_frames@);
    let ghost cfg = *diff_cfg;
    let data_bins = diff_cfg.pilot.data_bins();
    let cal_sym = calibration_symbol(diff_cfg.pilot.amp_levels, diff_cfg.pilot.phase_levels);
    let cal = constant_frame(cal_sym, data_bins);
    assert(cal@ =~= cal_frame(cfg));

    let mut out: Vec<Vec<(usize, usize)>> = Vec::new();
    if received_frames.len() == 0 {
        assert(frames_view(out@) =~= Seq::<Seq<(usize, usize)>>::empty());
        return out;
    }
    // The first frame is always calibration: it sets the baseline.
    let mut prev: Vec<(usize, usize)> = copy_frame(&cal);
    let mut since: usize = 0;
    proof {
        assert(recv.skip(1) =~= recv.drop_first());
        assert(frames_view(out@) + decode_from(recv.skip(1), prev@, 0, cfg) =~= spec_diff_decode_frames(recv, cfg));
    }

    let mut i: usize = 1;
    while i < received_frames.len()
        invariant
            cfg == *diff_cfg,
            cfg.coding_ok(),
            recv == frames_view(received_frames@),
            cal@ == cal_frame(cfg),
            1 <= i <= received_frames.len(),
            since < i,
            frames_view(out@) + decode_from(recv.skip(i as int), prev@, since as nat, cfg)
                == spec_diff_decode_frames(recv, cfg),
        decreases received_frames.len() - i,
    {
        let ghost before = frames_view(out@);
        let ghost rest = recv.skip(i as int);
        let ghost step = decode_from(rest, prev@, since as nat, cfg);
        assert(rest[0] == received_frames@[i as int]@);
        assert(rest.drop_first() =~= recv.skip(i + 1));
        if diff_cfg.recal_interval > 0 && since >= diff_cfg.recal_interval {
            // A calibration frame: reset the baseline.
            prev = copy_frame(&cal);
            since = 0;
            i += 1;
            proof {
                assert(frames_view(out@) + decode_from(recv.skip(i as int), prev@, since as nat, cfg)
                    =~= before + step);
            }
        } else {
            let abs_frame = zip_decode_frame(&received_frames[i], &prev, diff_cfg);
            prev = copy_frame(&abs_frame);
            proof { lemma_frames_view_push(out@, abs_frame); }
            out.push(abs_frame);
            since += 1;
            i += 1;
            proof {
                let tail = decode_from(recv.skip(i as int), prev@, since as nat, cfg);
                assert(step == seq![prev@] + tail);
                assert(frames_view(out@) + tail =~= before + step);
            }
        }
    }
    proof {
        assert(recv.skip(received_frames.len() as int) =~= Seq::<Seq<(usize, usize)>>::empty());
        assert(frames_view(out@) + Seq::<Seq<(usize, usize)>>::empty() =~= frames_view(out@));
    }
    out
}

/// Every frame has `n` bins, each symbol within the level ranges.
pub open spec fn frames_well_formed(frames: Seq<Seq<(usize, usize)>>, n: nat, cfg: DiffConfig) -> bool {
    forall|k: int| 0 <= k < frames.len() ==> {
        &&& #[trigger] frames[k].len() == n
        &&& forall|b: int| 0 <= b < n ==> symbol_in_range(
            #[trigger] frames[k][b],
            cfg.pilot.amp_levels,
            cfg.pilot.phase_levels,
            cfg.diff_mode,
        )
    }
}

/// Decoding a delta frame against the frame it was encoded from gives the
/// frame that was encoded.
proof fn lemma_zip_roundtrip(cur: Seq<(usize, usize)>, prev: Seq<(usize, usize)>, cfg: DiffConfig)
    requires
        cfg.coding_ok(),
        cur.len() == prev.len(),
        forall|b: int| 0 <= b < cur.len() ==> symbol_in_range(
            #[trigger] cur[b],
            cfg.pilot.amp_levels,
            cfg.pilot.phase_levels,
            cfg.diff_mode,
        ),
    ensures
        zip_decode(zip_encode(cur, prev, cfg), prev, cfg) == cur,
{
    let e = zip_encode(cur, prev, cfg);
    assert forall|b: int| 0 <= b < cur.len() implies zip_decode(e, prev, cfg)[b] == cur[b] by {
        lemma_delta_roundtrip(cur[b], prev[b], cfg.pilot.amp_levels, cfg.pilot.phase_levels, cfg.diff_mode);
    }
    assert(zip_decode(e, prev, cfg) =~= cur);
}

/// The decoder, started in the encoder's state, recovers the frames.
proof fn lemma_decode_encode_from(
    frames: Seq<Seq<(usize, usize)>>,
    prev: Seq<(usize, usize)>,
    since: nat,
    cfg: DiffConfig,
)
    requires
        cfg.coding_ok(),
        prev.len() == cfg.pilot.spec_data_bins(),
        frames_well_formed(frames, cfg.pilot.spec_data_bins() as nat, cfg),
    ensures
        decode_from(encode_from(frames, prev, since, cfg), prev, since, cfg) == frames,
    decreases frames.len(),
{
    cfg.pilot.lemma_data_bins_nonneg();
    if frames.len() == 0 {
        assert(encode_from(frames, prev, since, cfg) =~= Seq::<Seq<(usize, usize)>>::empty());
    } else {
        let f0 = frames[0];
        let rest = frames.drop_first();
        assert(frames_well_formed(rest, cfg.pilot.spec_data_bins() as nat, cfg)) by {
            assert forall|k: int| 0 <= k < rest.len() implies #[trigger] rest[k] == frames[k + 1] by {}
        }
        assert(f0.len() == cfg.pilot.spec_data_bins());
        let cal = cal_frame(cfg);
        if needs_recal(cfg, since) {
            let tail = encode_from(rest, f0, 1, cfg);
            let enc = encode_from(frames, prev, since, cfg);
            assert(enc == seq![cal, zip_encode(f0, cal, cfg)] + tail);
            assert(enc.drop_first() =~= seq![zip_encode(f0, cal, cfg)] + tail);
            assert((seq![zip_encode(f0, cal, cfg)] + tail).drop_first() =~= tail);
            lemma_zip_roundtrip(f0, cal, cfg);
            lemma_decode_encode_from(rest, f0, 1, cfg);
            let e1 = enc.drop_first();
            assert(e1[0] == zip_encode(f0, cal, cfg));
            assert(!needs_recal(cfg, 0));
            assert(decode_from(e1, cal, 0, cfg) == seq![f0] + decode_from(e1.drop_first(), f0, 1, cfg));
            assert(decode_from(enc, prev, since, cfg) == decode_from(e1, cal, 0, cfg));
            assert(decode_from(enc, prev, since, cfg) =~= seq![f0] + rest);
        } else {
            let tail = encode_from(rest, f0, since + 1, cfg);
            let enc = encode_from(frames, prev, since, cfg);
            assert(enc == seq![zip_encode(f0, prev, cfg)] + tail);
            assert(enc.drop_first() =~= tail);
            lemma_zip_roundtrip(f0, prev, cfg);
            lemma_decode_encode_from(rest, f0, since + 1, cfg);
            assert(decode_from(enc, prev, since, cfg) =~= seq![f0] + rest);
        }
        assert(seq![f0] + rest =~= frames);
    }
}

/// Law: decoding what `diff_encode_frames` sends gives back the data frames,
/// for frames of `data_bins` symbols within the level ranges, whatever the
/// recalibration interval and mode.
pub proof fn lemma_diff_frames_roundtrip(frames: Seq<Seq<(usize, usize)>>, cfg: DiffConfig)
    requires
        cfg.coding_ok(),
        frames_well_formed(frames, cfg.pilot.spec_data_bins() as nat, cfg),
    ensures
        spec_diff_decode_frames(spec_diff_encode_frames(frames, cfg), cfg) == frames,
{
    let enc = spec_diff_encode_frames(frames, cfg);
    cfg.pilot.lemma_data_bins_nonneg();
    assert(enc.drop_first() =~= encode_from(frames, cal_frame(cfg), 0, cfg));
    lemma_decode_encode_from(frames, cal_frame(cfg), 0, cfg);
}

/// Law: the transmitted stream is one calibration frame, one frame per data
/// frame, and one calibration frame for every full `recal_interval` data
/// frames after the first group.
pub proof fn lemma_diff_encode_len(frames: Seq<Seq<(usize, usize)>>, cfg: DiffConfig)
    ensures
        spec_diff_encode_frames(frames, cfg).len() == 1 + frames.len() + (
            if cfg.recal_interval == 0 || frames.len() == 0 { 0 } else { (frames.len() - 1) / (cfg.recal_interval as int) }),
{
    lemma_encode_from_len(frames, cal_frame(cfg), 0, cfg);
}

/// Length of `encode_from`: one frame per data frame plus the calibration
/// frames inserted after each full group.
proof fn lemma_encode_from_len(frames: Seq<Seq<(usize, usize)>>, prev: Seq<(usize, usize)>, since: nat, cfg: DiffConfig)
    requires
        cfg.recal_interval == 0 || since <= cfg.recal_interval,
    ensures
        encode_from(frames, prev, since, cfg).len() == frames.len() + (
            if cfg.recal_interval == 0 || frames.len() == 0 { 0 } else {
                (frames.len() - 1 + since) / (cfg.recal_interval as int) }),
    decreases frames.len(),
{
    if frames.len() > 0 {
        let r = cfg.recal_interval as int;
        if needs_recal(cfg, since) {
            lemma_encode_from_len(frames.drop_first(), frames[0], 1, cfg);
            assert(since == r);
            vstd::arithmetic::div_mod::lemma_div_plus_one(frames.len() - 1, r);
        } else {
            lemma_encode_from_len(frames.drop_first(), frames[0], since + 1, cfg);
            if r > 0 && frames.len() == 1 {
                vstd::arithmetic::div_mod::lemma_basic_div(since as int, r);
            }
        }
    }
}

/// What a receiver recovers from demodulated frames of a differential
/// stream of `expected` frames: nothing when fewer arrived; otherwise the
/// first `expected` frames decoded, laid end to end, turned into bytes and
/// deframed.
pub open spec fn spec_decode_diff_frames(rx: Seq<Seq<(usize, usize)>>, expected: int, cfg: DiffConfig) -> Option<Seq<u8>> {
    if rx.len() < expected {
        None
    } else {
        let decoded = spec_diff_decode_frames(rx.subrange(0, expected), cfg);
        spec_deframed(spec_pilot_symbols_to_bytes(decoded.flatten(), cfg.pilot), cfg.pilot.config.sync_magic@)
    }
}

/// Recover the payload from the demodulated frames of a differential stream
/// of `expected_frames` frames, or `None` when too few frames arrived or their
/// bytes hold no intact packet.
pub fn decode_diff_frames(rx_frames: &[Vec<(usize, usize)>], expected_frames: usize, diff_cfg: &DiffConfig) -> (r: Option<Vec<u8>>)
    requires
        diff_cfg.coding_ok(),
        diff_cfg.pilot.levels_ok(),
    ensures
        r is Some <==> spec_decode_diff_frames(frame_views(rx_frames@), expected_frames as int, *diff_cfg) is Some,
        r matches Some(p) ==> spec_decode_diff_frames(frame_views(rx_frames@), expected_frames as int, *diff_cfg) == Some(p@),
{
    if rx_frames.len() < expected_frames {
        return None;
    }
    let window = &rx_frames[0..expected_frames];
    let decoded = diff_decode_frames(window, diff_cfg);
    let symbols = flatten_frames(decoded.as_slice());
    proof {
        assert(frames_view(window@) =~= frame_views(rx_frames@).subrange(0, expected_frames as int));
        assert(frame_views(decoded@) =~= frames_view(decoded@));
    }
    let raw = pilot_symbols_to_bytes(symbols.as_slice(), &diff_cfg.pilot);
    match deframe(raw.as_slice(), &diff_cfg.pilot.config) {
        Ok(p) => Some(p),
        Err(_) => None,
    }
}

/// Data frame `j` is coded against the calibration frame: the first data frame,
/// and, when `recal_interval > 0`, every `recal_interval`-th one, before which
/// a calibration frame is re-sent.
pub open spec fn coded_from_calibration(j: int, recal_interval: usize) -> bool {
    j == 0 || (recal_interval > 0 && j % (recal_interval as int) == 0)
}

/// Where data frame `j` sits in the transmitted stream: after the leading
/// calibration frame, the `j` data frames before it, and the `j / recal_interval`
/// calibration frames re-sent up to it.
pub open spec fn data_slot(j: int, recal_interval: usize) -> int {
    if recal_interval == 0 {
        1 + j
    } else {
        1 + j + j / (recal_interval as int)
    }
}

/// Data frames sent since the last calibration frame, before data frame `m`.
pub open spec fn frames_since_calibration(m: int, recal_interval: usize) -> nat {
    if m <= 0 {
        0
    } else if recal_interval == 0 {
        m as nat
    } else {
        ((m - 1) % (recal_interval as int) + 1) as nat
    }
}

/// Quotient and remainder of a successor.
proof fn lemma_succ_divmod(a: int, d: int)
    requires
        a >= 0,
        d > 0,
    ensures
        0 <= a % d < d,
        (a + 1) / d == a / d + if a % d == d - 1 { 1int } else { 0int },
        (a + 1) % d == if a % d == d - 1 { 0int } else { a % d + 1 },
{
    vstd::arithmetic::div_mod::lemma_fundamental_div_mod(a, d);
    vstd::arithmetic::div_mod::lemma_mod_pos_bound(a, d);
    let q = a / d;
    let r = a % d;
    if r == d - 1 {
        assert(a + 1 == (q + 1) * d + 0) by (nonlinear_arith)
            requires a == d * q + r, r == d - 1;
        lemma_fundamental_div_mod_converse(a + 1, d, q + 1, 0);
    } else {
        assert(a + 1 == q * d + (r + 1)) by (nonlinear_arith)
            requires a == d * q + r;
        lemma_fundamental_div_mod_converse(a + 1, d, q, r + 1);
    }
}

/// One step of the calibration schedule: a calibration frame is due before
/// data frame `m` exactly when `m > 0` is coded from calibration; the count of
/// frames since calibration and the slot of the next data frame follow.
pub(crate) proof fn lemma_schedule_step(m: int, l: usize)
    requires
        m >= 0,
    ensures
        (l > 0 && frames_since_calibration(m, l) >= l) <==> (m > 0 && coded_from_calibration(m, l)),
        frames_since_calibration(m + 1, l)
            == if coded_from_calibration(m, l) { 1nat } else { frames_since_calibration(m, l) + 1 },
        data_slot(m + 1, l) == data_slot(m, l) + 1 + if coded_from_calibration(m + 1, l) { 1int } else { 0int },
{
    if l > 0 {
        let d = l as int;
        lemma_succ_divmod(m, d);
        if m > 0 {
            lemma_succ_divmod(m - 1, d);
        } else {
            lemma_small_mod(0, l as nat);
        }
    }
}

/// The slot of every data frame before `n` lies before the end of the frames
/// sent for them.
pub(crate) proof fn lemma_slot_before_end(j: int, n: int, l: usize)
    requires
        0 <= j < n,
    ensures
        data_slot(j, l) <= segment_start(n, l),
{
    lemma_slot_mono(j, n - 1, l);
    lemma_schedule_step(n - 1, l);
}

/// Slots grow by at least one per data frame.
pub(crate) proof fn lemma_slot_mono(m: int, j: int, l: usize)
    requires
        0 <= m <= j,
    ensures
        data_slot(m, l) + (j - m) <= data_slot(j, l),
    decreases j - m,
{
    if m < j {
        lemma_slot_mono(m, j - 1, l);
        lemma_schedule_step(j - 1, l);
    }
}

/// Where the frames sent for data frames `m..` start, counted after the
/// leading calibration frame.
pub open spec fn segment_start(m: int, l: usize) -> int {
    if m > 0 && coded_from_calibration(m, l) {
        data_slot(m, l) - 2
    } else {
        data_slot(m, l) - 1
    }
}

/// The frame data frame `j` is delta-coded against.
spec fn coding_base(frames: Seq<Seq<(usize, usize)>>, j: int, cfg: DiffConfig) -> Seq<(usize, usize)> {
    if coded_from_calibration(j, cfg.recal_interval) {
        cal_frame(cfg)
    } else {
        frames[j - 1]
    }
}

/// The frames sent for data frames `m..`, from the encoder's state before `m`.
proof fn lemma_encode_from_layout(frames: Seq<Seq<(usize, usize)>>, m: int, cfg: DiffConfig)
    requires
        0 <= m <= frames.len(),
    ensures
        ({
            let l = cfg.recal_interval;
            let seg = encode_from(
                frames.skip(m),
                if m == 0 { cal_frame(cfg) } else { frames[m - 1] },
                frames_since_calibration(m, l),
                cfg,
            );
            &&& seg.len() == segment_start(frames.len() as int, l) - segment_start(m, l)
            &&& forall|j: int| #![trigger data_slot(j, l)] m <= j < frames.len() ==>
                seg[data_slot(j, l) - 1 - segment_start(m, l)] == zip_encode(frames[j], coding_base(frames, j, cfg), cfg)
            &&& forall|j: int| #![trigger data_slot(j, l)] m <= j < frames.len() && j > 0 && coded_from_calibration(j, l) ==>
                seg[data_slot(j, l) - 2 - segment_start(m, l)] == cal_frame(cfg)
        }),
    decreases frames.len() - m,
{
    let l = cfg.recal_interval;
    let n = frames.len() as int;
    let rest = frames.skip(m);
    let prev = if m == 0 { cal_frame(cfg) } else { frames[m - 1] };
    let seg = encode_from(rest, prev, frames_since_calibration(m, l), cfg);
    if m < n {
        lemma_encode_from_layout(frames, m + 1, cfg);
        lemma_schedule_step(m, l);
        assert(rest[0] == frames[m]);
        assert(rest.drop_first() =~= frames.skip(m + 1));
        let seg1 = encode_from(frames.skip(m + 1), frames[m], frames_since_calibration(m + 1, l), cfg);
        let lead: Seq<Seq<(usize, usize)>> = if m > 0 && coded_from_calibration(m, l) {
            seq![cal_frame(cfg), zip_encode(frames[m], cal_frame(cfg), cfg)]
        } else {
            seq![zip_encode(frames[m], prev, cfg)]
        };
        assert(seg == lead + seg1);
        assert(lead.len() == segment_start(m + 1, l) - segment_start(m, l));
        assert forall|j: int| #![trigger data_slot(j, l)] m <= j < n implies
            seg[data_slot(j, l) - 1 - segment_start(m, l)] == zip_encode(frames[j], coding_base(frames, j, cfg), cfg) by {
            let idx = data_slot(j, l) - 1 - segment_start(m, l);
            if j == m {
                if m > 0 && coded_from_calibration(m, l) {
                    assert(idx == 1);
                    assert(seg[1] == lead[1]);
                } else {
                    assert(idx == 0);
                    assert(seg[0] == lead[0]);
                }
            } else {
                lemma_slot_mono(m + 1, j, l);
                lemma_slot_before_end(j, n, l);
                assert(seg[idx] == seg1[idx - lead.len()]);
            }
        }
        assert forall|j: int| #![trigger data_slot(j, l)] m <= j < n && j > 0 && coded_from_calibration(j, l) implies
            seg[data_slot(j, l) - 2 - segment_start(m, l)] == cal_frame(cfg) by {
            let idx = data_slot(j, l) - 2 - segment_start(m, l);
            if j == m {
                assert(idx == 0);
                assert(seg[0] == lead[0]);
            } else {
                lemma_schedule_step(j - 1, l);
                lemma_schedule_step(m, l);
                if j > m + 1 {
                    lemma_slot_mono(m + 1, j - 1, l);
                }
                lemma_slot_before_end(j, n, l);
                assert(seg[idx] == seg1[idx - lead.len()]);
            }
        }
    }
}

/// Law: the layout of a differentially encoded stream. It opens with a
/// calibration frame; data frame `j` is sent at `data_slot(j)`, as its per-bin
/// delta from the calibration frame when it is coded from calibration (a
/// calibration frame then sits just before it, so recalibration resets the
/// baseline whatever came before), and from data frame `j - 1` otherwise; the
/// last data frame is the last frame sent.
pub proof fn lemma_diff_encode_layout(frames: Seq<Seq<(usize, usize)>>, cfg: DiffConfig)
    ensures
        ({
            let e = spec_diff_encode_frames(frames, cfg);
            let l = cfg.recal_interval;
            &&& e[0] == cal_frame(cfg)
            &&& e.len() == if frames.len() == 0 { 1 } else { data_slot(frames.len() - 1, l) + 1 }
            &&& forall|j: int| 0 <= j < frames.len() ==> #[trigger] e[data_slot(j, l)] == zip_encode(
                frames[j],
                if coded_from_calibration(j, l) { cal_frame(cfg) } else { frames[j - 1] },
                cfg,
            )
            &&& forall|j: int| 0 <= j < frames.len() && coded_from_calibration(j, l) ==>
                #[trigger] e[data_slot(j, l) - 1] == cal_frame(cfg)
        }),
{
    let l = cfg.recal_interval;
    let n = frames.len() as int;
    let e = spec_diff_encode_frames(frames, cfg);
    lemma_encode_from_layout(frames, 0, cfg);
    assert(frames.skip(0) =~= frames);
    let seg = encode_from(frames, cal_frame(cfg), 0, cfg);
    assert(e == seq![cal_frame(cfg)] + seg);
    if n > 0 {
        lemma_schedule_step(n - 1, l);
    }
    assert forall|j: int| 0 <= j < n implies #[trigger] e[data_slot(j, l)] == zip_encode(
        frames[j],
        if coded_from_calibration(j, l) { cal_frame(cfg) } else { frames[j - 1] },
        cfg,
    ) by {
        lemma_slot_mono(0, j, l);
        lemma_slot_before_end(j, n, l);
        assert(seg[data_slot(j, l) - 1 - segment_start(0, l)] == zip_encode(frames[j], coding_base(frames, j, cfg), cfg));
        assert(e[data_slot(j, l)] == seg[data_slot(j, l) - 1]);
    }
    assert forall|j: int| 0 <= j < n && coded_from_calibration(j, l) implies
        #[trigger] e[data_slot(j, l) - 1] == cal_frame(cfg) by {
        lemma_slot_mono(0, j, l);
        lemma_slot_before_end(j, n, l);
        if j > 0 {
            lemma_schedule_step(j - 1, l);
            lemma_slot_mono(0, j - 1, l);
            assert(seg[data_slot(j, l) - 2 - segment_start(0, l)] == cal_frame(cfg));
            assert(e[data_slot(j, l) - 1] == seg[data_slot(j, l) - 2]);
        }
    }
}

/// Data frames since the last calibration as the decoder stands at data frame
/// `m`'s slot: none right after a calibration frame.
pub open spec fn since_at_slot(m: int, l: usize) -> nat {
    if coded_from_calibration(m, l) {
        0
    } else {
        frames_since_calibration(m, l)
    }
}

/// The frames decoded from the received frames at and after data frame `m`'s
/// slot, from the decoder's state there with `prev` as the last decoded frame.
proof fn lemma_decode_from_layout(
    recv: Seq<Seq<(usize, usize)>>,
    m: int,
    prev: Seq<(usize, usize)>,
    cfg: DiffConfig,
)
    requires
        m >= 0,
        data_slot(m, cfg.recal_interval) <= recv.len(),
        coded_from_calibration(m, cfg.recal_interval) ==> prev == cal_frame(cfg),
    ensures
        ({
            let l = cfg.recal_interval;
            let out = decode_from(recv.skip(data_slot(m, l)), prev, since_at_slot(m, l), cfg);
            &&& data_slot(m + out.len(), l) >= recv.len()
            &&& forall|k: int| 0 <= k < out.len() ==> #[trigger] data_slot(m + k, l) < recv.len()
            &&& forall|k: int| 0 <= k < out.len() ==> #[trigger] out[k] == zip_decode(
                recv[data_slot(m + k, l)],
                if k == 0 { prev } else if coded_from_calibration(m + k, l) { cal_frame(cfg) } else { out[k - 1] },
                cfg,
            )
        }),
    decreases recv.len() - data_slot(m, cfg.recal_interval),
{
    let l = cfg.recal_interval;
    let p = data_slot(m, l);
    let rest = recv.skip(p);
    let out = decode_from(rest, prev, since_at_slot(m, l), cfg);
    lemma_schedule_step(m, l);
    lemma_schedule_step(m + 1, l);
    if p < recv.len() {
        assert(rest[0] == recv[p]);
        assert(rest.drop_first() =~= recv.skip(p + 1));
        let d0 = zip_decode(recv[p], prev, cfg);
        let tail = decode_from(recv.skip(p + 1), d0, frames_since_calibration(m + 1, l), cfg);
        assert(out == seq![d0] + tail);
        assert(out[0] == d0);
        if coded_from_calibration(m + 1, l) {
            if p + 1 == recv.len() {
                assert(recv.skip(p + 1) =~= Seq::<Seq<(usize, usize)>>::empty());
                assert(out =~= seq![d0]);
            } else {
                let r1 = recv.skip(p + 1);
                assert(r1.drop_first() =~= recv.skip(p + 2));
                lemma_decode_from_layout(recv, m + 1, cal_frame(cfg), cfg);
                let out1 = decode_from(recv.skip(p + 2), cal_frame(cfg), 0, cfg);
                assert(tail == out1);
                assert(out =~= seq![d0] + out1);
                assert forall|k: int| 1 <= k < out.len() implies #[trigger] data_slot(m + k, l) < recv.len() by {
                    assert(data_slot(m + 1 + (k - 1), l) < recv.len());
                }
                assert forall|k: int| 1 <= k < out.len() implies #[trigger] out[k] == zip_decode(
                    recv[data_slot(m + k, l)],
                    if coded_from_calibration(m + k, l) { cal_frame(cfg) } else { out[k - 1] },
                    cfg,
                ) by {
                    assert(out[k] == out1[k - 1]);
                    assert(m + 1 + (k - 1) == m + k);
                    if k > 1 {
                        assert(out[k - 1] == out1[k - 2]);
                    }
                }
                assert(m + 1 + out1.len() == m + out.len());
            }
        } else {
            lemma_decode_from_layout(recv, m + 1, d0, cfg);
            assert(out =~= seq![d0] + tail);
            assert forall|k: int| 1 <= k < out.len() implies #[trigger] data_slot(m + k, l) < recv.len() by {
                assert(data_slot(m + 1 + (k - 1), l) < recv.len());
            }
            assert forall|k: int| 1 <= k < out.len() implies #[trigger] out[k] == zip_decode(
                recv[data_slot(m + k, l)],
                if coded_from_calibration(m + k, l) { cal_frame(cfg) } else { out[k - 1] },
                cfg,
            ) by {
                assert(out[k] == tail[k - 1]);
                assert(m + 1 + (k - 1) == m + k);
                if k > 1 {
                    assert(out[k - 1] == tail[k - 2]);
                }
            }
            assert(m + 1 + tail.len() == m + out.len());
        }
        assert forall|k: int| 0 <= k < out.len() implies #[trigger] data_slot(m + k, l) < recv.len() by {
            if k == 0 {
                assert(data_slot(m + k, l) == p);
            }
        }
    } else {
        assert(rest =~= Seq::<Seq<(usize, usize)>>::empty());
    }
}

/// Law: what the decoder makes of any received frames. It skips the first
/// frame (calibration) and every slot where a calibration frame is due; data
/// frame `j` is decoded from the frame at `data_slot(j)`, per bin against the
/// calibration frame when it is coded from calibration (so a calibration frame
/// resets the baseline, whatever was received before it) and against decoded
/// frame `j - 1` otherwise; there is one decoded frame for each data slot the
/// received frames reach.
pub proof fn lemma_diff_decode_layout(recv: Seq<Seq<(usize, usize)>>, cfg: DiffConfig)
    ensures
        ({
            let d = spec_diff_decode_frames(recv, cfg);
            let l = cfg.recal_interval;
            &&& data_slot(d.len() as int, l) >= recv.len()
            &&& forall|j: int| 0 <= j < d.len() ==> #[trigger] data_slot(j, l) < recv.len()
            &&& forall|j: int| 0 <= j < d.len() ==> #[trigger] d[j] == zip_decode(
                recv[data_slot(j, l)],
                if coded_from_calibration(j, l) { cal_frame(cfg) } else { d[j - 1] },
                cfg,
            )
        }),
{
    let l = cfg.recal_interval;
    if recv.len() > 0 {
        assert(recv.skip(1) =~= recv.drop_first());
        lemma_decode_from_layout(recv, 0, cal_frame(cfg), cfg);
        let d = spec_diff_decode_frames(recv, cfg);
        let out = decode_from(recv.skip(data_slot(0, l)), cal_frame(cfg), since_at_slot(0, l), cfg);
        assert(d == out);
        assert forall|j: int| 0 <= j < d.len() implies #[trigger] data_slot(j, l) < recv.len() by {
            assert(data_slot(0 + j, l) < recv.len());
        }
        assert forall|j: int| 0 <= j < d.len() implies #[trigger] d[j] == zip_decode(
            recv[data_slot(j, l)],
            if coded_from_calibration(j, l) { cal_frame(cfg) } else { d[j - 1] },
            cfg,
        ) by {
            assert(0 + j == j);
            assert(d[j] == out[j]);
        }
    }
}

} // verus!
