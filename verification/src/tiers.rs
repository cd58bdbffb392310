//! Bitrate tiers: predefined pilot and differential configurations for common
//! Opus bitrates, with the throughput each reaches without errors.

use vstd::prelude::*;

use crate::config::{has_default_layout, Config, Depth};
use crate::differential::{DiffConfig, DiffMode};
use crate::bits::spec_log2;
use crate::pilot::{InterpMethod, PilotConfig};

verus! {

/// How a tier's data goes over the channel.
#[derive(Debug, Clone, Copy)]
pub enum TierCodec {
    /// Absolute pilot-tone encoding.
    Pilot(PilotConfig),
    /// Differential encoding over pilot tones.
    Diff(DiffConfig),
}

/// Bitrate tier.
#[derive(Debug, Clone, Copy, PartialEq, Eq, Structural)]
pub enum Tier {
    /// 256 kbps: maximum throughput.
    Ultra,
    /// 192 kbps: near maximum.
    High,
    /// 128 kbps: reliable default.
    Standard,
    /// 96 kbps: broad compatibility.
    Medium,
    /// 64 kbps: maximum compatibility.
    Low,
    /// 48 kbps: experimental, unreliable.
    Minimal,
}

/// The character of a decimal digit.
pub open spec fn digit_char(d: nat) -> char {
    if d == 0 { '0' }
    else if d == 1 { '1' }
    else if d == 2 { '2' }
    else if d == 3 { '3' }
    else if d == 4 { '4' }
    else if d == 5 { '5' }
    else if d == 6 { '6' }
    else if d == 7 { '7' }
    else if d == 8 { '8' }
    else { '9' }
}

/// Decimal representation of `n`, without leading zeros ("0" for zero).
pub open spec fn decimal(n: nat) -> Seq<char>
    decreases n,
{
    if n < 10 {
        seq![digit_char(n)]
    } else {
        decimal(n / 10).push(digit_char(n % 10))
    }
}

/// The three decimal digits of `n < 1000`, zero-padded.
pub open spec fn three_digits(n: nat) -> Seq<char> {
    seq![digit_char(n / 100), digit_char((n / 10) % 10), digit_char(n % 10)]
}

/// Decimal representation of `n` with a comma between groups of three digits.
pub open spec fn grouped(n: nat) -> Seq<char>
    decreases n,
{
    if n < 1000 {
        decimal(n)
    } else {
        grouped(n / 1000) + seq![','] + three_digits(n % 1000)
    }
}

/// The highest tier whose bitrate fits within `kbps` (`Minimal` below 64).
pub open spec fn spec_for_bitrate(kbps: u32) -> Tier {
    if kbps >= 256 {
        Tier::Ultra
    } else if kbps >= 192 {
        Tier::High
    } else if kbps >= 128 {
        Tier::Standard
    } else if kbps >= 96 {
        Tier::Medium
    } else if kbps >= 64 {
        Tier::Low
    } else {
        Tier::Minimal
    }
}

/// All tiers, from highest to lowest throughput.
pub open spec fn spec_all_tiers() -> Seq<Tier> {
    seq![Tier::Ultra, Tier::High, Tier::Standard, Tier::Medium, Tier::Low, Tier::Minimal]
}

impl Tier {
    /// Opus bitrate in kbps.
    pub open spec fn spec_bitrate_kbps(self) -> u32 {
        match self {
            Tier::Ultra => 256,
            Tier::High => 192,
            Tier::Standard => 128,
            Tier::Medium => 96,
            Tier::Low => 64,
            Tier::Minimal => 48,
        }
    }

    /// Verified error-free throughput in bits per second (none for `Minimal`).
    pub open spec fn spec_throughput_bps(self) -> usize {
        match self {
            Tier::Ultra => 13_500,
            Tier::High => 12_200,
            Tier::Standard => 9_450,
            Tier::Medium => 6_100,
            Tier::Low => 2_700,
            Tier::Minimal => 0,
        }
    }

    /// Verified error-free throughput in bytes per second.
    pub open spec fn spec_throughput_bytes(self) -> usize {
        match self {
            Tier::Ultra => 1_687,
            Tier::High => 1_525,
            Tier::Standard => 1_181,
            Tier::Medium => 762,
            Tier::Low => 337,
            Tier::Minimal => 0,
        }
    }

    /// The tiers that use differential encoding.
    pub open spec fn spec_uses_diff(self) -> bool {
        self == Tier::Ultra || self == Tier::High
    }

    /// Bin plan of the tier: `(n_bins, bin_spacing, pilot_spacing, amp_levels,
    /// phase_levels, interpolation)`.
    pub open spec fn spec_plan(self) -> (usize, u32, usize, usize, usize, InterpMethod) {
        match self {
            Tier::Ultra => (60, 200, 10, 16, 2, InterpMethod::NearestNeighbor),
            Tier::High => (70, 200, 8, 8, 2, InterpMethod::NearestNeighbor),
            Tier::Standard => (70, 200, 10, 4, 2, InterpMethod::Linear),
            Tier::Medium => (70, 200, 8, 2, 2, InterpMethod::Linear),
            Tier::Low => (60, 250, 10, 2, 1, InterpMethod::Linear),
            Tier::Minimal => (60, 200, 8, 2, 1, InterpMethod::NearestNeighbor),
        }
    }

    /// `p` is the tier's pilot configuration: its bin plan over the default
    /// layout, base frequency 200 Hz, at the tier's bitrate.
    pub open spec fn is_pilot_config(self, p: PilotConfig) -> bool {
        let (n_bins, bin_spacing, pilot_spacing, amp_levels, phase_levels, interp) = self.spec_plan();
        &&& has_default_layout(p.config)
        &&& p.config.depth == Depth::Quad
        &&& p.config.n_bins == n_bins
        &&& p.config.bin_spacing == bin_spacing
        &&& p.config.base_freq == 200
        &&& p.config.opus_bitrate == self.spec_bitrate_kbps()
        &&& p.pilot_spacing == pilot_spacing
        &&& p.amp_levels == amp_levels
        &&& p.phase_levels == phase_levels
        &&& p.interp_method == interp
    }

    /// Name of the tier.
    pub open spec fn spec_name(self) -> Seq<char> {
        match self {
            Tier::Ultra => seq!['u', 'l', 't', 'r', 'a'],
            Tier::High => seq!['h', 'i', 'g', 'h'],
            Tier::Standard => seq!['s', 't', 'a', 'n', 'd', 'a', 'r', 'd'],
            Tier::Medium => seq!['m', 'e', 'd', 'i', 'u', 'm'],
            Tier::Low => seq!['l', 'o', 'w'],
            Tier::Minimal => seq!['m', 'i', 'n', 'i', 'm', 'a', 'l'],
        }
    }

    /// Summary line: `"{name} ({kbps}kbps): {bps} bps = {bytes} B/s"`, the
    /// throughputs with thousands separators.
    pub open spec fn spec_summary(self) -> Seq<char> {
        self.spec_name()
            + seq![' ', '(']
            + decimal(self.spec_bitrate_kbps() as nat)
            + seq!['k', 'b', 'p', 's', ')', ':', ' ']
            + grouped(self.spec_throughput_bps() as nat)
            + seq![' ', 'b', 'p', 's', ' ', '=', ' ']
            + grouped(self.spec_throughput_bytes() as nat)
            + seq![' ', 'B', '/', 's']
    }

    /// Opus bitrate in kbps.
    pub fn bitrate_kbps(&self) -> (r: u32)
        ensures
            r == self.spec_bitrate_kbps(),
    {
        match self {
            Tier::Ultra => 256,
            Tier::High => 192,
            Tier::Standard => 128,
            Tier::Medium => 96,
            Tier::Low => 64,
            Tier::Minimal => 48,
        }
    }

    /// Expected raw throughput in bits per second (zero errors verified).
    pub fn throughput_bps(&self) -> (r: usize)
        ensures
            r == self.spec_throughput_bps(),
    {
        match self {
            Tier::Ultra => 13_500,
            Tier::High => 12_200,
            Tier::Standard => 9_450,
            Tier::Medium => 6_100,
            Tier::Low => 2_700,
            Tier::Minimal => 0,
        }
    }

    /// Expected raw throughput in bytes per second.
    pub fn throughput_bytes(&self) -> (r: usize)
        ensures
            r == self.spec_throughput_bytes(),
    {
        match self {
            Tier::Ultra => 1_687,
            Tier::High => 1_525,
            Tier::Standard => 1_181,
            Tier::Medium => 762,
            Tier::Low => 337,
            Tier::Minimal => 0,
        }
    }

    /// Whether this tier uses differential encoding.
    pub fn uses_diff(&self) -> (r: bool)
        ensures
            r == self.spec_uses_diff(),
    {
        matches!(self, Tier::Ultra | Tier::High)
    }

    /// Whether this tier is experimental (unreliable).
    pub fn is_experimental(&self) -> (r: bool)
        ensures
            r == (*self == Tier::Minimal),
    {
        matches!(self, Tier::Minimal)
    }

    /// The pilot configuration of this tier.
    pub fn pilot_config(&self) -> (r: PilotConfig)
        ensures
            self.is_pilot_config(r),
    {
        let (n_bins, bin_spacing, pilot_spacing, amp_levels, phase_levels, interp, bitrate): (usize, u32, usize, usize, usize, InterpMethod, u32) =
            match self {
                Tier::Ultra => (60, 200, 10, 16, 2, InterpMethod::NearestNeighbor, 256),
                Tier::High => (70, 200, 8, 8, 2, InterpMethod::NearestNeighbor, 192),
                Tier::Standard => (70, 200, 10, 4, 2, InterpMethod::Linear, 128),
                Tier::Medium => (70, 200, 8, 2, 2, InterpMethod::Linear, 96),
                Tier::Low => (60, 250, 10, 2, 1, InterpMethod::Linear, 64),
                Tier::Minimal => (60, 200, 8, 2, 1, InterpMethod::NearestNeighbor, 48),
            };
        PilotConfig {
            config: Config {
                n_bins,
                bin_spacing,
                base_freq: 200,
                opus_bitrate: bitrate,
                ..Config::default()
            },
            pilot_spacing,
            amp_levels,
            phase_levels,
            interp_method: interp,
        }
    }

    /// The differential configuration of a differential tier: its pilot
    /// configuration, no recalibration, both components delta-encoded for
    /// `Ultra` and amplitude only for `High`.
    pub fn diff_config(&self) -> (r: DiffConfig)
        requires
            self.spec_uses_diff(),
        ensures
            self.is_pilot_config(r.pilot),
            r.recal_interval == 0,
            r.diff_mode == (if *self == Tier::Ultra { DiffMode::Both } else { DiffMode::AmpOnly }),
    {
        let diff_mode = match self {
            Tier::Ultra => DiffMode::Both,
            _ => DiffMode::AmpOnly,
        };
        DiffConfig { pilot: self.pilot_config(), recal_interval: 0, diff_mode }
    }

    /// The encoding a roundtrip through this tier uses: the differential
    /// configuration for differential tiers, the pilot configuration otherwise.
    pub fn codec(&self) -> (r: TierCodec)
        ensures
            self.spec_uses_diff() ==> (r matches TierCodec::Diff(d) && self.is_pilot_config(d.pilot)
                && d.recal_interval == 0
                && d.diff_mode == (if *self == Tier::Ultra { DiffMode::Both } else { DiffMode::AmpOnly })),
            !self.spec_uses_diff() ==> (r matches TierCodec::Pilot(p) && self.is_pilot_config(p)),
    {
        if self.uses_diff() {
            TierCodec::Diff(self.diff_config())
        } else {
            TierCodec::Pilot(self.pilot_config())
        }
    }

    /// The highest tier whose bitrate fits within `kbps` (`Minimal` below 64).
    pub fn for_bitrate(kbps: u32) -> (r: Tier)
        ensures
            r == spec_for_bitrate(kbps),
    {
        if kbps >= 256 {
            Tier::Ultra
        } else if kbps >= 192 {
            Tier::High
        } else if kbps >= 128 {
            Tier::Standard
        } else if kbps >= 96 {
            Tier::Medium
        } else if kbps >= 64 {
            Tier::Low
        } else {
            Tier::Minimal
        }
    }

    /// All tiers, from highest to lowest throughput.
    pub fn all() -> (r: Vec<Tier>)
        ensures
            r@ == spec_all_tiers(),
    {
        vec![Tier::Ultra, Tier::High, Tier::Standard, Tier::Medium, Tier::Low, Tier::Minimal]
    }

    /// Human-readable name.
    pub fn name(&self) -> (r: &'static str)
        ensures
            r@ == self.spec_name(),
    {
        match self {
            Tier::Ultra => {
                proof { reveal_strlit("ultra"); }
                "ultra"
            },
            Tier::High => {
                proof { reveal_strlit("high"); }
                "high"
            },
            Tier::Standard => {
                proof { reveal_strlit("standard"); }
                "standard"
            },
            Tier::Medium => {
                proof { reveal_strlit("medium"); }
                "medium"
            },
            Tier::Low => {
                proof { reveal_strlit("low"); }
                "low"
            },
            Tier::Minimal => {
                proof { reveal_strlit("minimal"); }
                "minimal"
            },
        }
    }

    /// Summary line, e.g. `standard (128kbps): 9,450 bps = 1,181 B/s`.
    pub fn to_string(&self) -> (r: String)
        ensures
            r@ == self.spec_summary(),
    {
        let mut s = String::from_str(self.name());
        append_lit(&mut s, " (");
        append_decimal(&mut s, self.bitrate_kbps() as usize);
        append_lit(&mut s, "kbps): ");
        let bps = format_number(self.throughput_bps());
        s.append(bps.as_str());
        append_lit(&mut s, " bps = ");
        let bytes = format_number(self.throughput_bytes());
        s.append(bytes.as_str());
        append_lit(&mut s, " B/s");
        proof {
            reveal_strlit(" (");
            reveal_strlit("kbps): ");
            reveal_strlit(" bps = ");
            reveal_strlit(" B/s");
        }
        s
    }
}

/// Append a string slice.
fn append_lit(s: &mut String, lit: &str)
    ensures
        final(s)@ == old(s)@ + lit@,
{
    s.append(lit);
}

/// The one-character string of a decimal digit.
fn digit_str(d: usize) -> (r: &'static str)
    requires
        d < 10,
    ensures
        r@ == seq![digit_char(d as nat)],
{
    if d == 0 {
        proof { reveal_strlit("0"); }
        "0"
    } else if d == 1 {
        proof { reveal_strlit("1"); }
        "1"
    } else if d == 2 {
        proof { reveal_strlit("2"); }
        "2"
    } else if d == 3 {
        proof { reveal_strlit("3"); }
        "3"
    } else if d == 4 {
        proof { reveal_strlit("4"); }
        "4"
    } else if d == 5 {
        proof { reveal_strlit("5"); }
        "5"
    } else if d == 6 {
        proof { reveal_strlit("6"); }
        "6"
    } else if d == 7 {
        proof { reveal_strlit("7"); }
        "7"
    } else if d == 8 {
        proof { reveal_strlit("8"); }
        "8"
    } else {
        proof { reveal_strlit("9"); }
        "9"
    }
}

/// Append the decimal representation of `n`.
fn append_decimal(s: &mut String, n: usize)
    ensures
        final(s)@ == old(s)@ + decimal(n as nat),
    decreases n,
{
    if n < 10 {
        s.append(digit_str(n));
    } else {
        append_decimal(s, n / 10);
        s.append(digit_str(n % 10));
        proof {
            assert(final(s)@ =~= old(s)@ + decimal(n as nat));
        }
    }
}

/// Append `n` with thousands separators.
fn append_grouped(s: &mut String, n: usize)
    ensures
        final(s)@ == old(s)@ + grouped(n as nat),
    decreases n,
{
    if n < 1000 {
        append_decimal(s, n);
    } else {
        append_grouped(s, n / 1000);
        let m = n % 1000;
        s.append(",");
        s.append(digit_str(m / 100));
        s.append(digit_str((m / 10) % 10));
        s.append(digit_str(m % 10));
        proof {
            reveal_strlit(",");
            assert(final(s)@ =~= old(s)@ + grouped(n as nat));
        }
    }
}

/// `n` in decimal with a comma between groups of three digits, e.g. `13,500`.
pub fn format_number(n: usize) -> (r: String)
    ensures
        r@ == grouped(n as nat),
{
    let mut s = String::new();
    append_grouped(&mut s, n);
    proof {
        assert(s@ =~= grouped(n as nat));
    }
    s
}

/// The test for a character other than a comma.
pub open spec fn not_comma() -> spec_fn(char) -> bool {
    |c: char| c != ','
}

/// `s` without its commas.
pub open spec fn without_commas(s: Seq<char>) -> Seq<char> {
    s.filter(not_comma())
}

/// A decimal representation holds no comma.
proof fn lemma_decimal_without_commas(n: nat)
    ensures
        without_commas(decimal(n)) == decimal(n),
    decreases n,
{
    let e = Seq::<char>::empty();
    reveal(Seq::filter);
    if n < 10 {
        e.lemma_filter_push(digit_char(n), not_comma());
        assert(e.push(digit_char(n)) =~= decimal(n));
        assert(e.filter(not_comma()) =~= e);
    } else {
        lemma_decimal_without_commas(n / 10);
        decimal(n / 10).lemma_filter_push(digit_char(n % 10), not_comma());
    }
}

/// The decimal digits of `n >= 1000` are those of `n / 1000`, then the three
/// digits of `n % 1000`.
proof fn lemma_decimal_split(n: nat)
    requires
        n >= 1000,
    ensures
        decimal(n) == decimal(n / 1000) + three_digits(n % 1000),
{
    let q = (n / 1000) as int;
    let m = (n % 1000) as int;
    let ni = n as int;
    assert(ni == 1000 * q + m && 0 <= m < 1000) by {
        vstd::arithmetic::div_mod::lemma_fundamental_div_mod(ni, 1000);
    }
    // n / 10 and n % 10
    vstd::arithmetic::div_mod::lemma_fundamental_div_mod_converse(ni, 10, 100 * q + m / 10, m % 10);
    // (n / 10) / 10 and (n / 10) % 10
    vstd::arithmetic::div_mod::lemma_fundamental_div_mod_converse(100 * q + m / 10, 10, 10 * q + m / 100, (m / 10) % 10);
    // (n / 100) / 10 and (n / 100) % 10
    vstd::arithmetic::div_mod::lemma_fundamental_div_mod_converse(10 * q + m / 100, 10, q, m / 100);
    assert(n / 10 >= 100);
    assert((n / 10) / 10 >= 10);
    let d1 = decimal(n / 10);
    let d2 = decimal((n / 10) / 10);
    assert(decimal(n) == d1.push(digit_char(n % 10)));
    assert(d1 == d2.push(digit_char((n / 10) % 10)));
    assert(d2 == decimal(((n / 10) / 10) / 10).push(digit_char(((n / 10) / 10) % 10)));
    assert(decimal(n) =~= decimal(n / 1000) + three_digits(n % 1000));
}

/// Three digits hold no comma, and a lone comma filters to nothing.
proof fn lemma_three_digits_without_commas(m: nat)
    ensures
        without_commas(three_digits(m)) == three_digits(m),
        without_commas(seq![',']) == Seq::<char>::empty(),
{
    let e = Seq::<char>::empty();
    assert(e.filter(not_comma()) =~= e) by {
        reveal(Seq::filter);
    }
    e.lemma_filter_push(',', not_comma());
    assert(seq![','] =~= e.push(','));
    let a = e.push(digit_char(m / 100));
    let b = a.push(digit_char((m / 10) % 10));
    let c = b.push(digit_char(m % 10));
    e.lemma_filter_push(digit_char(m / 100), not_comma());
    a.lemma_filter_push(digit_char((m / 10) % 10), not_comma());
    b.lemma_filter_push(digit_char(m % 10), not_comma());
    assert(three_digits(m) =~= c);
}

/// Law: `format_number` only inserts separators: without its commas it is
/// the plain decimal representation of the number.
pub proof fn lemma_grouped_is_decimal(n: nat)
    ensures
        without_commas(grouped(n)) == decimal(n),
    decreases n,
{
    if n < 1000 {
        lemma_decimal_without_commas(n);
    } else {
        lemma_grouped_is_decimal(n / 1000);
        lemma_decimal_split(n);
        lemma_three_digits_without_commas(n % 1000);
        let g = grouped(n / 1000);
        let t = three_digits(n % 1000);
        Seq::filter_distributes_over_add(g + seq![','], t, not_comma());
        Seq::filter_distributes_over_add(g, seq![','], not_comma());
        assert(grouped(n) == g + seq![','] + t);
        assert(without_commas(grouped(n)) =~= decimal(n / 1000) + t);
    }
}

/// Law: every tier is chosen back from its own bitrate.
pub proof fn lemma_for_bitrate_of_tier(t: Tier)
    ensures
        spec_for_bitrate(t.spec_bitrate_kbps()) == t,
{
}

/// Law: from 48 kbps up, `for_bitrate` picks a tier that fits within the
/// bitrate, and no tier that fits has a higher bitrate.
pub proof fn lemma_for_bitrate_is_highest_fit(kbps: u32, t: Tier)
    requires
        kbps >= 48,
    ensures
        spec_for_bitrate(kbps).spec_bitrate_kbps() <= kbps,
        t.spec_bitrate_kbps() <= kbps ==> t.spec_bitrate_kbps() <= spec_for_bitrate(kbps).spec_bitrate_kbps(),
{
}

/// Law: each tier's byte throughput is its bit throughput divided by eight.
pub proof fn lemma_throughput_bytes_is_bits_over_8(t: Tier)
    ensures
        t.spec_throughput_bytes() == t.spec_throughput_bps() / 8,
{
}

/// Law: `all` lists every tier exactly once, in strictly decreasing order of
/// throughput and of bitrate.
pub proof fn lemma_all_tiers(t: Tier)
    ensures
        spec_all_tiers().contains(t),
        forall|i: int, j: int| 0 <= i < j < 6 ==> spec_all_tiers()[i] != spec_all_tiers()[j],
        forall|i: int, j: int| 0 <= i < j < 6 ==> spec_all_tiers()[i].spec_throughput_bps() > spec_all_tiers()[j].spec_throughput_bps(),
        forall|i: int, j: int| 0 <= i < j < 6 ==> spec_all_tiers()[i].spec_bitrate_kbps() > spec_all_tiers()[j].spec_bitrate_kbps(),
{
    let a = spec_all_tiers();
    assert(a[0] == Tier::Ultra && a[1] == Tier::High && a[2] == Tier::Standard);
    assert(a[3] == Tier::Medium && a[4] == Tier::Low && a[5] == Tier::Minimal);
    match t {
        Tier::Ultra => assert(a[0] == t),
        Tier::High => assert(a[1] == t),
        Tier::Standard => assert(a[2] == t),
        Tier::Medium => assert(a[3] == t),
        Tier::Low => assert(a[4] == t),
        Tier::Minimal => assert(a[5] == t),
    }
}

/// Law: every tier's pilot configuration is a sound plan with power-of-two
/// levels, and for every tier but the experimental one the listed throughput is
/// exactly what that configuration carries: data bits per frame times frames
/// per second.
pub proof fn lemma_tier_throughput_matches_config(t: Tier, p: PilotConfig)
    requires
        t.is_pilot_config(p),
    ensures
        p.plan_ok(),
        p.levels_ok(),
        p.config.frame_samples > 0,
        t != Tier::Minimal ==> t.spec_throughput_bps() == p.spec_bits_per_frame() * p.config.spec_frames_per_sec(),
{
    vstd::arithmetic::power2::lemma2_to64();
    crate::bits::lemma_spec_log2_pow2(0);
    crate::bits::lemma_spec_log2_pow2(1);
    crate::bits::lemma_spec_log2_pow2(2);
    crate::bits::lemma_spec_log2_pow2(3);
    crate::bits::lemma_spec_log2_pow2(4);
    assert(p.config.spec_frames_per_sec() == 50);
    assert(spec_log2(16) == 4 && spec_log2(8) == 3 && spec_log2(4) == 2);
    assert(spec_log2(2) == 1 && spec_log2(1) == 0);
    match t {
        Tier::Ultra => {
            assert(p.spec_data_bins() == 54);
            assert(p.spec_bits_per_bin() == 5);
        },
        Tier::High => {
            assert(p.spec_data_bins() == 61);
            assert(p.spec_bits_per_bin() == 4);
        },
        Tier::Standard => {
            assert(p.spec_data_bins() == 63);
            assert(p.spec_bits_per_bin() == 3);
        },
        Tier::Medium => {
            assert(p.spec_data_bins() == 61);
            assert(p.spec_bits_per_bin() == 2);
        },
        Tier::Low => {
            assert(p.spec_data_bins() == 54);
            assert(p.spec_bits_per_bin() == 1);
        },
        Tier::Minimal => {},
    }
}

} // verus!
