//! Codec configuration, modulation depth and the wire header.

use vstd::prelude::*;
use vstd::utf8::{decode_utf8, encode_utf8, valid_utf8};

verus! {

/// Modulation depth: how many bits each frequency bin carries per frame.
#[derive(Debug, Clone, Copy, PartialEq, Eq, Structural)]
pub enum Depth {
    /// 1 bit per bin: two-tone FSK.
    Binary,
    /// 2 bits per bin: four-tone FSK.
    Quad,
    /// 4 bits per bin: sixteen-tone FSK.
    Hex16,
}

impl Depth {
    /// Bits per bin as a mathematical value.
    pub open spec fn spec_bits(self) -> nat {
        match self {
            Depth::Binary => 1,
            Depth::Quad => 2,
            Depth::Hex16 => 4,
        }
    }

    /// The byte that names this depth on the wire (its bit count).
    pub open spec fn spec_code(self) -> u8 {
        match self {
            Depth::Binary => 1u8,
            Depth::Quad => 2u8,
            Depth::Hex16 => 4u8,
        }
    }

    /// Number of discrete tone levels per bin: `2^bits`.
    pub fn levels(self) -> (r: usize)
        ensures
            r == vstd::arithmetic::power2::pow2(self.spec_bits()),
            r == match self {
                Depth::Binary => 2usize,
                Depth::Quad => 4usize,
                Depth::Hex16 => 16usize,
            },
    {
        proof {
            vstd::arithmetic::power2::lemma2_to64();
        }
        match self {
            Depth::Binary => 2,
            Depth::Quad => 4,
            Depth::Hex16 => 16,
        }
    }

    /// Bits encoded per bin per frame.
    pub fn bits_per_bin(self) -> (r: usize)
        ensures
            r == self.spec_bits(),
    {
        match self {
            Depth::Binary => 1,
            Depth::Quad => 2,
            Depth::Hex16 => 4,
        }
    }

    /// The wire byte of this depth.
    pub fn to_u8(self) -> (r: u8)
        ensures
            r == self.spec_code(),
    {
        match self {
            Depth::Binary => 1,
            Depth::Quad => 2,
            Depth::Hex16 => 4,
        }
    }

    /// Description of the depth.
    pub open spec fn spec_description(self) -> Seq<char> {
        match self {
            Depth::Binary => seq!['b', 'i', 'n', 'a', 'r', 'y', ' ', '(', '1', '-', 'b', 'i', 't', ',', ' ', '2', '-', 't', 'o', 'n', 'e', ' ', 'F', 'S', 'K', ')'],
            Depth::Quad => seq!['q', 'u', 'a', 'd', ' ', '(', '2', '-', 'b', 'i', 't', ',', ' ', '4', '-', 't', 'o', 'n', 'e', ' ', 'F', 'S', 'K', ')'],
            Depth::Hex16 => seq!['h', 'e', 'x', '1', '6', ' ', '(', '4', '-', 'b', 'i', 't', ',', ' ', '1', '6', '-', 't', 'o', 'n', 'e', ' ', 'F', 'S', 'K', ')'],
        }
    }

    /// Description of the depth, e.g. `quad (2-bit, 4-tone FSK)`.
    pub fn to_string(self) -> (r: String)
        ensures
            r@ == self.spec_description(),
    {
        match self {
            Depth::Binary => {
                proof { reveal_strlit("binary (1-bit, 2-tone FSK)"); }
                String::from_str("binary (1-bit, 2-tone FSK)")
            },
            Depth::Quad => {
                proof { reveal_strlit("quad (2-bit, 4-tone FSK)"); }
                String::from_str("quad (2-bit, 4-tone FSK)")
            },
            Depth::Hex16 => {
                proof { reveal_strlit("hex16 (4-bit, 16-tone FSK)"); }
                String::from_str("hex16 (4-bit, 16-tone FSK)")
            },
        }
    }

    /// Depth from its wire byte; `None` for any byte other than 1, 2 or 4.
    pub fn from_u8(v: u8) -> (r: Option<Depth>)
        ensures
            v == 1 ==> r == Some(Depth::Binary),
            v == 2 ==> r == Some(Depth::Quad),
            v == 4 ==> r == Some(Depth::Hex16),
            (v != 1 && v != 2 && v != 4) ==> r is None,
            r matches Some(d) ==> d.spec_code() == v,
            r == depth_of(v),
    {
        match v {
            1 => Some(Depth::Binary),
            2 => Some(Depth::Quad),
            4 => Some(Depth::Hex16),
            _ => None,
        }
    }
}


/// Codec configuration. Frequencies are whole hertz.
#[derive(Debug, Clone, Copy)]
pub struct Config {
    /// Sample rate in Hz. Opus needs 48000.
    pub sample_rate: u32,
    /// Samples per frame (20 ms at 48 kHz is 960).
    pub frame_samples: usize,
    /// Number of frequency bins.
    pub n_bins: usize,
    /// Spacing between bin centres in Hz.
    pub bin_spacing: u32,
    /// Centre frequency of the first bin in Hz.
    pub base_freq: u32,
    /// Modulation depth.
    pub depth: Depth,
    /// Opus bitrate in kbps.
    pub opus_bitrate: u32,
    /// Silent frames before the data (codec settling).
    pub padding_frames: usize,
    /// Silent frames after the data.
    pub trailing_frames: usize,
    /// How many frame offsets a decoder scans for the sync header.
    pub max_search_offset: usize,
    /// Sync magic bytes.
    pub sync_magic: [u8; 4],
}

/// The sync magic every default layout uses: `DE AD BE EF`.
pub open spec fn default_magic() -> Seq<u8> {
    seq![0xDEu8, 0xADu8, 0xBEu8, 0xEFu8]
}

/// The fields every preset shares with the default layout.
pub open spec fn has_default_layout(c: Config) -> bool {
    &&& c.sample_rate == 48_000
    &&& c.frame_samples == 960
    &&& c.padding_frames == 10
    &&& c.trailing_frames == 10
    &&& c.max_search_offset == 25
    &&& c.sync_magic@ == default_magic()
}

/// The smallest bin spacing (Hz) for `depth` on the default layout: the
/// Rayleigh limit of one frame, 48000 / 960 = 50 Hz, times `levels + 1`, times a
/// 20% margin, rounded up to whole hertz. The product is formed in single
/// precision, where 1.2 is slightly above 1.2: for 2 and 4 levels it stays at
/// 180 and 300, for 16 levels it lands just above 1020 and rounds up to 1021.
pub open spec fn spec_margin_spacing(depth: Depth) -> int {
    match depth {
        Depth::Binary => 180,
        Depth::Quad => 300,
        Depth::Hex16 => 1021,
    }
}

/// Upper edge of the usable audio band for auto-tuned layouts, in Hz.
pub const MAX_USABLE_FREQ: u32 = 20_000;

impl Default for Config {
    /// Wire-compatible defaults: Quad depth, 79 bins, 250 Hz spacing from 200 Hz,
    /// 128 kbps Opus.
    fn default() -> (r: Config)
        ensures
            has_default_layout(r),
            r.n_bins == 79,
            r.bin_spacing == 250,
            r.base_freq == 200,
            r.depth == Depth::Quad,
            r.opus_bitrate == 128,
    {
        Config {
            sample_rate: 48_000,
            frame_samples: 960,
            n_bins: 79,
            bin_spacing: 250,
            base_freq: 200,
            depth: Depth::Quad,
            opus_bitrate: 128,
            padding_frames: 10,
            trailing_frames: 10,
            max_search_offset: 25,
            sync_magic: [0xDE, 0xAD, 0xBE, 0xEF],
        }
    }
}

impl Config {
    /// Conservative layout: Binary, 48 bins, 250 Hz spacing, 64 kbps.
    pub fn conservative() -> (r: Config)
        ensures
            has_default_layout(r),
            r.n_bins == 48,
            r.bin_spacing == 250,
            r.base_freq == 200,
            r.depth == Depth::Binary,
            r.opus_bitrate == 64,
    {
        Config {
            n_bins: 48,
            bin_spacing: 250,
            base_freq: 200,
            depth: Depth::Binary,
            opus_bitrate: 64,
            ..Self::default_layout()
        }
    }

    /// Low-bandwidth layout: Quad, 71 bins, 250 Hz spacing, 96 kbps.
    pub fn low_bandwidth() -> (r: Config)
        ensures
            has_default_layout(r),
            r.n_bins == 71,
            r.bin_spacing == 250,
            r.base_freq == 200,
            r.depth == Depth::Quad,
            r.opus_bitrate == 96,
    {
        Config {
            n_bins: 71,
            bin_spacing: 250,
            base_freq: 200,
            depth: Depth::Quad,
            opus_bitrate: 96,
            ..Self::default_layout()
        }
    }

    /// Timing and sync fields shared by every preset; the band plan is left empty.
    fn default_layout() -> (r: Config)
        ensures
            has_default_layout(r),
            r.n_bins == 0,
            r.bin_spacing == 0,
            r.base_freq == 0,
            r.depth == Depth::Binary,
            r.opus_bitrate == 0,
    {
        Config {
            sample_rate: 48_000,
            frame_samples: 960,
            n_bins: 0,
            bin_spacing: 0,
            base_freq: 0,
            depth: Depth::Binary,
            opus_bitrate: 0,
            padding_frames: 10,
            trailing_frames: 10,
            max_search_offset: 25,
            sync_magic: [0xDE, 0xAD, 0xBE, 0xEF],
        }
    }

    /// Bits carried by one frame: `n_bins * bits_per_bin`.
    pub open spec fn spec_bits_per_frame(self) -> int {
        self.n_bins * self.depth.spec_bits()
    }

    /// Frames per second: `sample_rate / frame_samples` (integer division).
    pub open spec fn spec_frames_per_sec(self) -> int {
        self.sample_rate as int / self.frame_samples as int
    }

    /// Throughput in bits per second, as the codec computes it:
    /// bits per frame times `1000 / frame_ms`, where `frame_ms = frame_samples * 1000 / sample_rate`.
    pub open spec fn spec_throughput_bps(self) -> int {
        self.spec_bits_per_frame()
            * (1000int / ((self.frame_samples as int * 1000) / self.sample_rate as int))
    }

    /// The preconditions under which `throughput_bps` neither divides by zero nor overflows.
    pub open spec fn throughput_computable(self) -> bool {
        &&& self.sample_rate > 0
        &&& self.spec_bits_per_frame() <= usize::MAX
        &&& self.frame_samples * 1000 <= usize::MAX
        &&& self.frame_samples * 1000 >= self.sample_rate
        &&& self.spec_bits_per_frame()
            * (1000int / ((self.frame_samples as int * 1000) / self.sample_rate as int)) <= usize::MAX
    }

    /// Total bits per frame.
    pub fn bits_per_frame(&self) -> (r: usize)
        requires
            self.spec_bits_per_frame() <= usize::MAX,
        ensures
            r == self.spec_bits_per_frame(),
    {
        self.n_bins * self.depth.bits_per_bin()
    }

    /// Bytes per frame (floor division).
    pub fn bytes_per_frame(&self) -> (r: usize)
        requires
            self.spec_bits_per_frame() <= usize::MAX,
        ensures
            r == self.spec_bits_per_frame() / 8,
    {
        self.bits_per_frame() / 8
    }

    /// Data throughput in bits per second.
    pub fn throughput_bps(&self) -> (r: usize)
        requires
            self.throughput_computable(),
        ensures
            r == self.spec_throughput_bps(),
    {
        let frame_ms = self.frame_samples * 1000 / (self.sample_rate as usize);
        assert(frame_ms > 0) by (nonlinear_arith)
            requires
                frame_ms == (self.frame_samples * 1000) / (self.sample_rate as int),
                self.frame_samples * 1000 >= self.sample_rate,
                self.sample_rate > 0,
        ;
        let per_sec = 1000 / frame_ms;
        self.bits_per_frame() * per_sec
    }

    /// Data throughput in bytes per second.
    pub fn throughput_bytes(&self) -> (r: usize)
        requires
            self.throughput_computable(),
        ensures
            r == self.spec_throughput_bps() / 8,
    {
        self.throughput_bps() / 8
    }

    /// Frames per second.
    pub fn frames_per_sec(&self) -> (r: usize)
        requires
            self.frame_samples > 0,
        ensures
            r == self.spec_frames_per_sec(),
    {
        self.sample_rate as usize / self.frame_samples
    }

    /// Whether the tone spacing inside a bin, `bin_spacing / (levels + 1)`, is at
    /// least the Rayleigh resolution `sample_rate / frame_samples` of one frame.
    pub open spec fn spec_is_valid(self) -> bool {
        &&& self.frame_samples > 0
        &&& self.bin_spacing * self.frame_samples
            >= self.sample_rate * (vstd::arithmetic::power2::pow2(self.depth.spec_bits()) + 1)
    }

    /// Check whether the configuration can resolve all tone levels.
    pub fn is_valid(&self) -> (r: bool)
        ensures
            r == self.spec_is_valid(),
    {
        if self.frame_samples == 0 {
            return false;
        }
        let levels = self.depth.levels() as u128;
        let bs = self.bin_spacing as u128;
        let fs = self.frame_samples as u128;
        let sr = self.sample_rate as u128;
        assert(bs * fs <= 0xffff_ffff_ffff_ffff_ffff_ffff_ffff_ffffu128) by (nonlinear_arith)
            requires
                bs <= 0xffff_ffffu128,
                fs <= 0xffff_ffff_ffff_ffffu128,
        ;
        assert(sr * (levels + 1) <= 0xffff_ffff_ffff_ffff_ffffu128) by (nonlinear_arith)
            requires
                sr <= 0xffff_ffffu128,
                levels <= 16,
        ;
        let lhs = bs * fs;
        let rhs = sr * (levels + 1);
        lhs >= rhs
    }

    /// An auto-tuned configuration for `depth`: the default layout with the bin
    /// spacing widened to the resolvable minimum (`spec_margin_spacing`) when
    /// that exceeds 250 Hz, and as many bins (at least 4) as fit between the
    /// base frequency and 20 kHz.
    pub fn for_depth(depth: Depth) -> (r: Config)
        ensures
            has_default_layout(r),
            r.depth == depth,
            r.base_freq == 200,
            r.opus_bitrate == 128,
            r.bin_spacing as int == {
                let m = spec_margin_spacing(depth);
                if m > 250 { m } else { 250 }
            },
            r.n_bins as int == {
                let n = (MAX_USABLE_FREQ as int - 200) / (r.bin_spacing as int);
                if n > 4 { n } else { 4 }
            },
            depth == Depth::Binary ==> r.bin_spacing == 250 && r.n_bins == 79,
            depth == Depth::Quad ==> r.bin_spacing == 300 && r.n_bins == 66,
            depth == Depth::Hex16 ==> r.bin_spacing == 1021 && r.n_bins == 19,
            r.spec_is_valid(),
    {
        let base = Config::default();
        proof {
            vstd::arithmetic::power2::lemma2_to64();
        }
        let min_spacing: u32 = match depth {
            Depth::Binary => 180,
            Depth::Quad => 300,
            Depth::Hex16 => 1021,
        };
        let bin_spacing: u32 = if min_spacing > base.bin_spacing {
            min_spacing
        } else {
            base.bin_spacing
        };
        assert(depth == Depth::Binary ==> bin_spacing == 250);
        assert(depth == Depth::Quad ==> bin_spacing == 300);
        assert(depth == Depth::Hex16 ==> bin_spacing == 1021);
        let n = ((MAX_USABLE_FREQ - base.base_freq) / bin_spacing) as usize;
        assert(depth == Depth::Binary ==> n == 79);
        assert(depth == Depth::Quad ==> n == 66);
        assert(depth == Depth::Hex16 ==> n == 19);
        let n_bins: usize = if n > 4 { n } else { 4 };
        Config { depth, bin_spacing, n_bins, ..base }
    }
}


/// Law: a serialised header takes `serialized_size` bytes, the ten fixed bytes
/// and the UTF-8 bytes of the filename.
pub proof fn lemma_header_bytes_len(h: WireHeaderView)
    ensures
        header_bytes(h).len() == encode_utf8(h.filename).len() + 10,
{
}

/// Law: a header parse that takes all of `hb` is unchanged by the bytes that
/// follow it.
pub proof fn lemma_parse_header_prefix(hb: Seq<u8>, more: Seq<u8>)
    requires
        parse_header(hb) matches Some((h, n)) && n == hb.len(),
    ensures
        parse_header(hb + more) == parse_header(hb),
{
    let b = hb + more;
    assert(b.subrange(0, hb.len() as int) =~= hb);
    if hb[0] > 2 {
        assert(b.subrange(10, 10 + b[9] as int) =~= hb.subrange(10, 10 + hb[9] as int));
    }
}

/// Law: a configuration is valid exactly when a frame has samples and the tone
/// spacing inside a bin, `bin_spacing / (tones + 1)`, is at least the Rayleigh
/// resolution `sample_rate / frame_samples`: the bin is cut into one slot more
/// than there are tones (3 for Binary, 5 for Quad, 17 for Hex16).
pub proof fn lemma_valid_iff_tone_spacing_resolves(c: Config)
    ensures
        c.spec_is_valid() <==> {
            let slots: int = match c.depth {
                Depth::Binary => 3,
                Depth::Quad => 5,
                Depth::Hex16 => 17,
            };
            &&& c.frame_samples > 0
            &&& c.bin_spacing as int * c.frame_samples as int >= c.sample_rate as int * slots
        },
{
    vstd::arithmetic::power2::lemma2_to64();
}

/// Law: at 48 kHz with 960-sample frames (a 50 Hz resolution) a layout is valid
/// exactly when its bin spacing is at least 150 Hz (Binary), 250 Hz (Quad) or
/// 850 Hz (Hex16).
pub proof fn lemma_valid_at_default_rate(c: Config)
    requires
        c.sample_rate == 48_000,
        c.frame_samples == 960,
    ensures
        c.spec_is_valid() <==> c.bin_spacing >= match c.depth {
            Depth::Binary => 150u32,
            Depth::Quad => 250u32,
            Depth::Hex16 => 850u32,
        },
{
    lemma_valid_iff_tone_spacing_resolves(c);
}

/// Law: the wire byte of a depth reads back as that depth.
pub proof fn lemma_depth_code_roundtrip(d: Depth)
    ensures
        depth_of(d.spec_code()) == Some(d),
{
}

/// Wire header prepended to the first data frame, so that a decoder can learn
/// the encoding parameters.
///
/// v2 layout (8 bytes, little-endian):
///   `[version: u8] [depth: u8] [n_bins: u16] [bin_spacing: u16] [base_freq: u16]`
///
/// v3 layout (10 + filename_len bytes): the v2 fields, then
///   `[compression: u8] [filename_len: u8] [filename: UTF-8 bytes]`
#[derive(Debug, Clone, PartialEq, Eq)]
pub struct WireHeader {
    pub version: u8,
    pub depth: Depth,
    pub n_bins: u16,
    pub bin_spacing_hz: u16,
    pub base_freq_hz: u16,
    /// Compression: 0 = none, 1 = zstd.
    pub compression: u8,
    /// Name of the packed file (kept in `.yip` files).
    pub filename: String,
}

/// Mathematical value of a wire header: the filename as a character sequence.
pub struct WireHeaderView {
    pub version: u8,
    pub depth: Depth,
    pub n_bins: u16,
    pub bin_spacing_hz: u16,
    pub base_freq_hz: u16,
    pub compression: u8,
    pub filename: Seq<char>,
}

impl View for WireHeader {
    type V = WireHeaderView;

    open spec fn view(&self) -> WireHeaderView {
        WireHeaderView {
            version: self.version,
            depth: self.depth,
            n_bins: self.n_bins,
            bin_spacing_hz: self.bin_spacing_hz,
            base_freq_hz: self.base_freq_hz,
            compression: self.compression,
            filename: self.filename@,
        }
    }
}

/// Little-endian bytes of a `u16`.
pub open spec fn le16(v: u16) -> Seq<u8> {
    seq![(v % 256) as u8, (v / 256) as u8]
}

/// The `u16` that two little-endian bytes hold.
pub open spec fn from_le16(lo: u8, hi: u8) -> u16 {
    (lo as int + hi as int * 256) as u16
}

/// The depth a wire byte names, if any.
pub open spec fn depth_of(b: u8) -> Option<Depth> {
    if b == 1 {
        Some(Depth::Binary)
    } else if b == 2 {
        Some(Depth::Quad)
    } else if b == 4 {
        Some(Depth::Hex16)
    } else {
        None
    }
}

/// A `u32` frequency clamped into a `u16` field.
pub open spec fn saturate_u16(v: u32) -> u16 {
    if v > 0xffff { 0xffffu16 } else { v as u16 }
}

/// The header that describes a configuration.
pub open spec fn spec_from_config(c: Config) -> WireHeaderView {
    WireHeaderView {
        version: 3,
        depth: c.depth,
        n_bins: c.n_bins as u16,
        bin_spacing_hz: saturate_u16(c.bin_spacing),
        base_freq_hz: saturate_u16(c.base_freq),
        compression: 0,
        filename: Seq::empty(),
    }
}

/// `c` is the configuration a header describes: the header's band plan and depth
/// on the default timing, sync and bitrate fields.
pub open spec fn describes_header(c: Config, h: WireHeaderView) -> bool {
    &&& c.n_bins == h.n_bins as usize
    &&& c.bin_spacing == h.bin_spacing_hz as u32
    &&& c.base_freq == h.base_freq_hz as u32
    &&& c.depth == h.depth
    &&& has_default_layout(c)
    &&& c.opus_bitrate == 128
}

/// The v3 serialisation of a header.
pub open spec fn header_bytes(h: WireHeaderView) -> Seq<u8> {
    let f = encode_utf8(h.filename);
    seq![h.version, h.depth.spec_code()] + le16(h.n_bins) + le16(h.bin_spacing_hz)
        + le16(h.base_freq_hz) + seq![h.compression, f.len() as u8] + f
}

/// What `String::from_utf8_lossy` makes of a byte string.
pub uninterp spec fn lossy_utf8(bytes: Seq<u8>) -> Seq<char>;

/// The characters a filename field decodes to: the UTF-8 decoding when the bytes
/// are valid, the lossy decoding otherwise.
pub open spec fn filename_chars(bytes: Seq<u8>) -> Seq<char> {
    if valid_utf8(bytes) {
        decode_utf8(bytes)
    } else {
        lossy_utf8(bytes)
    }
}

/// Parse of a wire header: the header and the number of bytes it takes, or
/// `None` when the bytes are too short or the depth byte is unknown.
/// Versions up to 2 carry only the 8 fixed bytes.
pub open spec fn parse_header(buf: Seq<u8>) -> Option<(WireHeaderView, int)> {
    if buf.len() < 8 {
        None
    } else {
        match depth_of(buf[1]) {
            None => None,
            Some(depth) => {
                let n_bins = from_le16(buf[2], buf[3]);
                let bin_spacing_hz = from_le16(buf[4], buf[5]);
                let base_freq_hz = from_le16(buf[6], buf[7]);
                if buf[0] <= 2 {
                    Some((WireHeaderView {
                        version: buf[0],
                        depth,
                        n_bins,
                        bin_spacing_hz,
                        base_freq_hz,
                        compression: 0,
                        filename: Seq::empty(),
                    }, 8))
                } else if buf.len() < 10 || buf.len() < 10 + buf[9] {
                    None
                } else {
                    Some((WireHeaderView {
                        version: buf[0],
                        depth,
                        n_bins,
                        bin_spacing_hz,
                        base_freq_hz,
                        compression: buf[8],
                        filename: filename_chars(buf.subrange(10, 10 + buf[9])),
                    }, 10 + buf[9]))
                }
            },
        }
    }
}

/// `String::from_utf8_lossy`, made owned: the decoding of `bytes`, with each
/// invalid sequence replaced by U+FFFD. Claimed: the result is a function of the
/// bytes alone, and equals the plain UTF-8 decoding when the bytes are valid UTF-8.
#[verifier::external_body]
fn string_from_utf8_lossy(bytes: &[u8]) -> (s: String)
    ensures
        s@ == lossy_utf8(bytes@),
        valid_utf8(bytes@) ==> s@ == decode_utf8(bytes@),
{
    String::from_utf8_lossy(bytes).into_owned()
}

impl WireHeader {
    /// Size of the fixed fields shared with v2.
    pub const BASE_SIZE: usize = 8;

    /// Current wire format version (v3: compression flag and filename).
    pub const VERSION: u8 = 3;

    /// The header describing `config`: current version, no compression, no filename.
    /// Bin counts wrap into 16 bits; frequencies saturate at 65535 Hz.
    pub fn from_config(config: &Config) -> (h: WireHeader)
        ensures
            h@ == spec_from_config(*config),
            h.version == WireHeader::VERSION,
    {
        WireHeader {
            version: WireHeader::VERSION,
            depth: config.depth,
            n_bins: config.n_bins as u16,
            bin_spacing_hz: if config.bin_spacing > 0xffff { 0xffff } else { config.bin_spacing as u16 },
            base_freq_hz: if config.base_freq > 0xffff { 0xffff } else { config.base_freq as u16 },
            compression: 0,
            filename: String::new(),
        }
    }

    /// Serialised size in bytes: 10 plus the filename's UTF-8 length.
    pub fn serialized_size(&self) -> (r: usize)
        requires
            encode_utf8(self.filename@).len() + 10 <= usize::MAX,
        ensures
            r == encode_utf8(self.filename@).len() + 10,
    {
        WireHeader::BASE_SIZE + 2 + self.filename.as_str().len()
    }

    /// The v3 serialisation. The filename length is stored in one byte.
    pub fn to_bytes(&self) -> (r: Vec<u8>)
        requires
            encode_utf8(self.filename@).len() + 10 <= usize::MAX,
        ensures
            r@ == header_bytes(self@),
            r@.len() == encode_utf8(self.filename@).len() + 10,
    {
        proof {
            lemma_header_bytes_len(self@);
        }
        let fname = self.filename.as_str().as_bytes();
        let mut buf: Vec<u8> = Vec::with_capacity(self.serialized_size());
        buf.push(self.version);
        buf.push(self.depth.to_u8());
        buf.push((self.n_bins % 256) as u8);
        buf.push((self.n_bins / 256) as u8);
        buf.push((self.bin_spacing_hz % 256) as u8);
        buf.push((self.bin_spacing_hz / 256) as u8);
        buf.push((self.base_freq_hz % 256) as u8);
        buf.push((self.base_freq_hz / 256) as u8);
        buf.push(self.compression);
        buf.push(fname.len() as u8);
        let ghost prefix = buf@;
        let mut i: usize = 0;
        while i < fname.len()
            invariant
                i <= fname@.len(),
                buf@ == prefix + fname@.subrange(0, i as int),
            decreases fname@.len() - i,
        {
            buf.push(fname[i]);
            i += 1;
            assert(fname@.subrange(0, i as int) == fname@.subrange(0, i - 1) + seq![fname@[i - 1]]);
        }
        assert(fname@.subrange(0, fname@.len() as int) == fname@);
        assert(buf@ == header_bytes(self@));
        buf
    }

    /// Parse a wire header from the front of `buf`, returning the header and the
    /// number of bytes it occupies. Handles both the v2 and the v3 layout.
    pub fn from_bytes(buf: &[u8]) -> (r: Option<(WireHeader, usize)>)
        ensures
            r is Some <==> parse_header(buf@) is Some,
            r matches Some((h, n)) ==> parse_header(buf@) == Some((h@, n as int)),
    {
        if buf.len() < WireHeader::BASE_SIZE {
            return None;
        }
        let version = buf[0];
        let depth = match Depth::from_u8(buf[1]) {
            Some(d) => d,
            None => return None,
        };
        let n_bins = buf[2] as u16 + (buf[3] as u16) * 256;
        let bin_spacing_hz = buf[4] as u16 + (buf[5] as u16) * 256;
        let base_freq_hz = buf[6] as u16 + (buf[7] as u16) * 256;
        if version <= 2 {
            let h = WireHeader {
                version,
                depth,
                n_bins,
                bin_spacing_hz,
                base_freq_hz,
                compression: 0,
                filename: String::new(),
            };
            assert(h@ == parse_header(buf@).unwrap().0);
            return Some((h, WireHeader::BASE_SIZE));
        }
        if buf.len() < WireHeader::BASE_SIZE + 2 {
            return None;
        }
        let compression = buf[8];
        let fname_len = buf[9] as usize;
        if buf.len() < WireHeader::BASE_SIZE + 2 + fname_len {
            return None;
        }
        let filename = string_from_utf8_lossy(&buf[10..10 + fname_len]);
        let h = WireHeader {
            version,
            depth,
            n_bins,
            bin_spacing_hz,
            base_freq_hz,
            compression,
            filename,
        };
        assert(h@ == parse_header(buf@).unwrap().0);
        Some((h, WireHeader::BASE_SIZE + 2 + fname_len))
    }

    /// The configuration this header describes: its band plan and depth on top
    /// of the default timing, sync and bitrate fields.
    pub fn to_config(&self) -> (c: Config)
        ensures
            describes_header(c, self@),
    {
        Config {
            n_bins: self.n_bins as usize,
            bin_spacing: self.bin_spacing_hz as u32,
            base_freq: self.base_freq_hz as u32,
            depth: self.depth,
            ..Config::default()
        }
    }
}


/// Serialising a header of version 3 or later whose filename fits the one-byte
/// length field, then parsing the bytes, gives back the same header and consumes
/// exactly `serialized_size` bytes.
pub proof fn lemma_wire_header_roundtrip(h: WireHeader)
    requires
        h.version >= 3,
        encode_utf8(h.filename@).len() <= 255,
    ensures
        parse_header(header_bytes(h@)) == Some((h@, encode_utf8(h.filename@).len() + 10int)),
{
    let b = header_bytes(h@);
    let f = encode_utf8(h.filename@);
    vstd::utf8::encode_utf8_valid_utf8(h.filename@);
    vstd::utf8::encode_utf8_decode_utf8(h.filename@);
    assert(b.len() == 10 + f.len());
    assert(b[0] == h.version);
    assert(b[9] == f.len());
    assert(b.subrange(10, 10 + f.len() as int) =~= f);
    assert(from_le16(b[2], b[3]) == h.n_bins);
    assert(from_le16(b[4], b[5]) == h.bin_spacing_hz);
    assert(from_le16(b[6], b[7]) == h.base_freq_hz);
    assert(depth_of(b[1]) == Some(h.depth));
    assert(filename_chars(b.subrange(10, 10 + b[9])) == h.filename@);
}

/// A configuration whose bin count and frequencies fit in 16 bits survives the
/// trip through its wire header: band plan and depth come back unchanged.
pub proof fn lemma_wire_header_config_roundtrip(c: Config, back: Config)
    requires
        c.n_bins <= 0xffff,
        c.bin_spacing <= 0xffff,
        c.base_freq <= 0xffff,
        describes_header(back, spec_from_config(c)),
    ensures
        back.n_bins == c.n_bins,
        back.bin_spacing == c.bin_spacing,
        back.base_freq == c.base_freq,
        back.depth == c.depth,
{
}

} // verus!
