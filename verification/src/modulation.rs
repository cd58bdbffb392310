//! Bit packing between bytes and tone symbols, and the symbol-level side of
//! stream decoding.
//!
//! Each byte becomes `8 / bits_per_bin` symbols, most significant bits first:
//! Binary gives 8 one-bit symbols, Quad 4 two-bit symbols, Hex16 2 four-bit
//! symbols. Symbols are laid out `n_bins` to a frame.

use vstd::prelude::*;

use crate::config::{Config, Depth};
use crate::framing::{crc32_of, from_le32, le32, packet_bytes, HEADER_SIZE};

verus! {

/// Symbols per byte: `8 / bits_per_bin`.
pub open spec fn spb(d: Depth) -> nat {
    match d {
        Depth::Binary => 8,
        Depth::Quad => 4,
        Depth::Hex16 => 2,
    }
}

/// Mask of one symbol's bits.
pub open spec fn symbol_mask(d: Depth) -> usize {
    match d {
        Depth::Binary => 1usize,
        Depth::Quad => 3usize,
        Depth::Hex16 => 15usize,
    }
}

/// Shift of the `j`-th symbol within a byte (the first symbol is the most
/// significant).
pub open spec fn symbol_shift(d: Depth, j: int) -> usize {
    ((spb(d) - 1 - j) * d.spec_bits()) as usize
}

/// The `j`-th symbol of byte `b`.
pub open spec fn byte_symbol(b: u8, j: int, d: Depth) -> usize {
    ((b as usize) >> symbol_shift(d, j)) & symbol_mask(d)
}

/// The symbols that encode `data`.
pub open spec fn spec_bytes_to_symbols(data: Seq<u8>, d: Depth) -> Seq<usize> {
    Seq::new(data.len() * spb(d), |k: int| byte_symbol(data[k / spb(d) as int], k % spb(d) as int, d))
}

/// The byte that the first `i` symbols of `chunk` make: each symbol, truncated
/// to 8 bits, shifted to its place and or-ed in.
pub open spec fn pack_prefix(chunk: Seq<usize>, d: Depth, i: nat) -> u8
    decreases i,
{
    if i == 0 {
        0u8
    } else {
        pack_prefix(chunk, d, (i - 1) as nat) | ((chunk[i - 1] as u8) << symbol_shift(d, i - 1))
    }
}

/// The byte a chunk of `spb` symbols makes.
pub open spec fn pack_symbols(chunk: Seq<usize>, d: Depth) -> u8 {
    pack_prefix(chunk, d, spb(d))
}

/// The bytes that `symbols` make: one per complete chunk of `spb` symbols;
/// trailing symbols that do not fill a chunk are dropped.
pub open spec fn spec_symbols_to_bytes(symbols: Seq<usize>, d: Depth) -> Seq<u8> {
    Seq::new(
        symbols.len() / spb(d),
        |k: int| pack_symbols(symbols.subrange(k * spb(d), k * spb(d) + spb(d)), d),
    )
}

/// Symbol per byte count, as computed.
fn symbols_per_byte(d: Depth) -> (r: usize)
    ensures
        r == spb(d),
        r * d.spec_bits() == 8,
{
    8 / d.bits_per_bin()
}

/// Convert bytes to symbols for the configured depth, most significant bits first.
pub fn bytes_to_symbols(data: &[u8], config: &Config) -> (r: Vec<usize>)
    requires
        data@.len() * 8 <= usize::MAX,
    ensures
        r@ == spec_bytes_to_symbols(data@, config.depth),
        forall|k: int| 0 <= k < r@.len() ==> #[trigger] r@[k] <= symbol_mask(config.depth),
{
    let d = config.depth;
    let bpb = d.bits_per_bin();
    let mask: usize = d.levels() - 1;
    let per_byte = symbols_per_byte(d);
    assert(mask == symbol_mask(d));
    let mut symbols: Vec<usize> = Vec::new();
    let mut k: usize = 0;
    while k < data.len()
        invariant
            k <= data@.len(),
            data@.len() * 8 <= usize::MAX,
            per_byte == spb(d),
            bpb == d.spec_bits(),
            mask == symbol_mask(d),
            symbols@.len() == k * spb(d),
            forall|m: int| 0 <= m < symbols@.len() ==>
                #[trigger] symbols@[m] == byte_symbol(data@[m / spb(d) as int], m % spb(d) as int, d),
        decreases data@.len() - k,
    {
        let byte = data[k];
        let mut i: usize = per_byte;
        while i > 0
            invariant
                i <= per_byte,
                per_byte == spb(d),
                bpb == d.spec_bits(),
                mask == symbol_mask(d),
                k < data@.len(),
                byte == data@[k as int],
                symbols@.len() == k * spb(d) + (spb(d) - i),
                forall|m: int| 0 <= m < symbols@.len() ==>
                    #[trigger] symbols@[m] == byte_symbol(data@[m / spb(d) as int], m % spb(d) as int, d),
            decreases i,
        {
            i -= 1;
            let j = per_byte - 1 - i;
            assert(i * bpb < 8) by {
                assert(per_byte * bpb == 8);
                assert(i < per_byte);
                assert(i * bpb < per_byte * bpb) by (nonlinear_arith)
                    requires i < per_byte, bpb > 0;
            }
            let s = ((byte as usize) >> (i * bpb)) & mask;
            let ghost m = symbols@.len() as int;
            proof {
                assert(m == k * spb(d) + j) by (nonlinear_arith)
                    requires m == k * spb(d) + (spb(d) - (i + 1)), j == spb(d) - 1 - i;
                assert(m / spb(d) as int == k && m % spb(d) as int == j) by (nonlinear_arith)
                    requires m == k * spb(d) + j, 0 <= j < spb(d);
                assert(symbol_shift(d, j as int) == i * bpb);
            }
            symbols.push(s);
        }
        k += 1;
        assert(symbols@.len() == k * spb(d)) by (nonlinear_arith)
            requires symbols@.len() == (k - 1) * spb(d) + spb(d);
    }
    assert(symbols@ =~= spec_bytes_to_symbols(data@, d));
    assert forall|k: int| 0 <= k < symbols@.len() implies #[trigger] symbols@[k] <= symbol_mask(d) by {
        lemma_byte_symbol_range(data@[k / spb(d) as int], k % spb(d) as int, d);
    }
    symbols
}

/// Convert symbols back to bytes; a trailing partial chunk is dropped.
pub fn symbols_to_bytes(symbols: &[usize], config: &Config) -> (r: Vec<u8>)
    ensures
        r@ == spec_symbols_to_bytes(symbols@, config.depth),
{
    let d = config.depth;
    let bpb = d.bits_per_bin();
    let per_byte = symbols_per_byte(d);
    let n_symbols = symbols.len();
    let n_bytes = n_symbols / per_byte;
    let mut out: Vec<u8> = Vec::new();
    let mut k: usize = 0;
    let mut base: usize = 0;
    while k < n_bytes
        invariant
            k <= n_bytes,
            base == k * spb(d),
            n_symbols == symbols@.len(),
            n_bytes == symbols@.len() / spb(d),
            per_byte == spb(d),
            bpb == d.spec_bits(),
            out@.len() == k,
            forall|m: int| 0 <= m < k ==>
                #[trigger] out@[m] == pack_symbols(symbols@.subrange(m * spb(d), m * spb(d) + spb(d)), d),
        decreases n_bytes - k,
    {
        assert(base + per_byte <= symbols@.len()) by (nonlinear_arith)
            requires
                base == k * per_byte,
                k < n_bytes,
                n_bytes == (symbols@.len() as int) / (per_byte as int),
                per_byte > 0;
        let ghost chunk = symbols@.subrange(base as int, base + per_byte);
        let mut byte: u8 = 0;
        let mut i: usize = 0;
        while i < per_byte
            invariant
                i <= per_byte,
                per_byte == spb(d),
                bpb == d.spec_bits(),
                n_symbols == symbols@.len(),
                base + per_byte <= symbols@.len(),
                chunk == symbols@.subrange(base as int, base + per_byte),
                byte == pack_prefix(chunk, d, i as nat),
            decreases per_byte - i,
        {
            assert((per_byte - 1 - i) * bpb < 8) by (nonlinear_arith)
                requires per_byte * bpb == 8, i < per_byte, bpb > 0;
            let shift = (per_byte - 1 - i) * bpb;
            byte = byte | ((#[verifier::truncate] (symbols[base + i] as u8)) << shift);
            i += 1;
        }
        out.push(byte);
        k += 1;
        base += per_byte;
        assert(base == k * spb(d)) by (nonlinear_arith)
            requires base == (k - 1) * spb(d) + spb(d);
    }
    assert(out@ =~= spec_symbols_to_bytes(symbols@, d));
    out
}


/// The symbols of one byte.
pub open spec fn byte_symbols(b: u8, d: Depth) -> Seq<usize> {
    Seq::new(spb(d), |j: int| byte_symbol(b, j, d))
}

/// Packing the symbols of a byte gives the byte back.
proof fn lemma_pack_byte_symbols(b: u8, d: Depth)
    ensures
        pack_symbols(byte_symbols(b, d), d) == b,
{
    let c = byte_symbols(b, d);
    reveal_with_fuel(pack_prefix, 9);
    match d {
        Depth::Binary => {
            assert(symbol_shift(d, 0) == 7usize && symbol_shift(d, 7) == 0usize);
            assert(c[0] == ((b as usize) >> 7usize) & 1usize);
            assert(c[1] == ((b as usize) >> 6usize) & 1usize);
            assert(c[2] == ((b as usize) >> 5usize) & 1usize);
            assert(c[3] == ((b as usize) >> 4usize) & 1usize);
            assert(c[4] == ((b as usize) >> 3usize) & 1usize);
            assert(c[5] == ((b as usize) >> 2usize) & 1usize);
            assert(c[6] == ((b as usize) >> 1usize) & 1usize);
            assert(c[7] == ((b as usize) >> 0usize) & 1usize);
            assert(
                ((((((((0u8 | (((((b as usize) >> 7usize) & 1usize) as u8) << 7usize))
                    | (((((b as usize) >> 6usize) & 1usize) as u8) << 6usize))
                    | (((((b as usize) >> 5usize) & 1usize) as u8) << 5usize))
                    | (((((b as usize) >> 4usize) & 1usize) as u8) << 4usize))
                    | (((((b as usize) >> 3usize) & 1usize) as u8) << 3usize))
                    | (((((b as usize) >> 2usize) & 1usize) as u8) << 2usize))
                    | (((((b as usize) >> 1usize) & 1usize) as u8) << 1usize))
                    | (((((b as usize) >> 0usize) & 1usize) as u8) << 0usize)) == b
            ) by (bit_vector);
        },
        Depth::Quad => {
            assert(symbol_shift(d, 0) == 6usize && symbol_shift(d, 3) == 0usize);
            assert(c[0] == ((b as usize) >> 6usize) & 3usize);
            assert(c[1] == ((b as usize) >> 4usize) & 3usize);
            assert(c[2] == ((b as usize) >> 2usize) & 3usize);
            assert(c[3] == ((b as usize) >> 0usize) & 3usize);
            assert(
                ((((0u8 | (((((b as usize) >> 6usize) & 3usize) as u8) << 6usize))
                    | (((((b as usize) >> 4usize) & 3usize) as u8) << 4usize))
                    | (((((b as usize) >> 2usize) & 3usize) as u8) << 2usize))
                    | (((((b as usize) >> 0usize) & 3usize) as u8) << 0usize)) == b
            ) by (bit_vector);
        },
        Depth::Hex16 => {
            assert(symbol_shift(d, 0) == 4usize && symbol_shift(d, 1) == 0usize);
            assert(c[0] == ((b as usize) >> 4usize) & 15usize);
            assert(c[1] == ((b as usize) >> 0usize) & 15usize);
            assert(
                ((0u8 | (((((b as usize) >> 4usize) & 15usize) as u8) << 4usize))
                    | (((((b as usize) >> 0usize) & 15usize) as u8) << 0usize)) == b
            ) by (bit_vector);
        },
    }
}

/// Every symbol of a byte is at most the depth's highest symbol, `levels - 1`.
pub proof fn lemma_byte_symbol_range(b: u8, j: int, d: Depth)
    ensures
        byte_symbol(b, j, d) <= symbol_mask(d),
{
    let x = (b as usize) >> symbol_shift(d, j);
    match d {
        Depth::Binary => assert(x & 1usize <= 1usize) by (bit_vector),
        Depth::Quad => assert(x & 3usize <= 3usize) by (bit_vector),
        Depth::Hex16 => assert(x & 15usize <= 15usize) by (bit_vector),
    }
}

/// The symbols of the first `j` bytes are the first `j * spb` symbols.
pub proof fn lemma_bytes_to_symbols_prefix(data: Seq<u8>, d: Depth, j: int)
    requires
        0 <= j <= data.len(),
    ensures
        spec_bytes_to_symbols(data, d).subrange(0, j * spb(d)) == spec_bytes_to_symbols(data.subrange(0, j), d),
{
    let a = spec_bytes_to_symbols(data, d).subrange(0, j * spb(d));
    let b = spec_bytes_to_symbols(data.subrange(0, j), d);
    assert(j * spb(d) <= data.len() * spb(d)) by (nonlinear_arith)
        requires 0 <= j <= data.len();
    assert forall|k: int| 0 <= k < b.len() implies a[k] == b[k] by {
        assert(k / (spb(d) as int) < j) by (nonlinear_arith)
            requires 0 <= k < j * spb(d), spb(d) > 0;
    }
    assert(a =~= b);
}

/// Law: packing the symbols of any bytes gives the bytes back.
pub proof fn lemma_symbols_bytes_roundtrip(data: Seq<u8>, d: Depth)
    ensures
        spec_symbols_to_bytes(spec_bytes_to_symbols(data, d), d) == data,
{
    let s = spec_bytes_to_symbols(data, d);
    let r = spec_symbols_to_bytes(s, d);
    let n = spb(d) as int;
    assert((s.len() as int) / n == data.len()) by (nonlinear_arith)
        requires s.len() == data.len() * n, n > 0;
    assert forall|k: int| 0 <= k < data.len() implies r[k] == data[k] by {
        let chunk = s.subrange(k * n, k * n + n);
        assert(k * n + n <= s.len()) by (nonlinear_arith)
            requires 0 <= k < data.len(), s.len() == data.len() * n, n > 0;
        assert forall|j: int| 0 <= j < n implies chunk[j] == byte_symbols(data[k], d)[j] by {
            assert((k * n + j) / n == k && (k * n + j) % n == j) by (nonlinear_arith)
                requires 0 <= j < n, n > 0;
        }
        assert(chunk =~= byte_symbols(data[k], d));
        lemma_pack_byte_symbols(data[k], d);
    }
    assert(r =~= data);
}


/// `a / n` rounded up.
pub open spec fn ceil_div(a: int, n: int) -> int {
    (a + n - 1) / n
}

/// Symbol `k` of a stream padded with zeros past its end.
pub open spec fn padded_symbol(symbols: Seq<usize>, k: int) -> usize {
    if 0 <= k < symbols.len() {
        symbols[k]
    } else {
        0usize
    }
}

/// The frames `symbols` is laid out in: `n` symbols each, the last padded with
/// symbol 0.
pub open spec fn spec_symbols_to_frames(symbols: Seq<usize>, n: nat) -> Seq<Seq<usize>> {
    Seq::new(
        ceil_div(symbols.len() as int, n as int) as nat,
        |f: int| Seq::new(n, |j: int| padded_symbol(symbols, f * n + j)),
    )
}

/// Pack symbols into frames of `n_bins` each, padding the last frame with symbol 0.
pub fn symbols_to_frames(symbols: &[usize], config: &Config) -> (r: Vec<Vec<usize>>)
    requires
        config.n_bins > 0,
    ensures
        r@.len() == spec_symbols_to_frames(symbols@, config.n_bins as nat).len(),
        forall|f: int| 0 <= f < r@.len() ==>
            #[trigger] r@[f]@ == spec_symbols_to_frames(symbols@, config.n_bins as nat)[f],
{
    let r = chunk_frames(symbols, config.n_bins, 0usize);
    proof {
        let n = config.n_bins as nat;
        assert forall|f: int| 0 <= f < r@.len() implies
            #[trigger] r@[f]@ == spec_symbols_to_frames(symbols@, n)[f] by {
            assert(r@[f]@ =~= spec_symbols_to_frames(symbols@, n)[f]);
        }
    }
    r
}

/// Symbol `k` of a stream, or `fill` past its end.
pub open spec fn padded_with<T>(symbols: Seq<T>, k: int, fill: T) -> T {
    if 0 <= k < symbols.len() {
        symbols[k]
    } else {
        fill
    }
}

/// `symbols` cut into frames of `n`, the last padded with `fill`.
pub open spec fn spec_chunk_frames<T>(symbols: Seq<T>, n: nat, fill: T) -> Seq<Seq<T>> {
    Seq::new(
        ceil_div(symbols.len() as int, n as int) as nat,
        |f: int| Seq::new(n, |j: int| padded_with(symbols, f * n + j, fill)),
    )
}

/// The contents of a list of frames.
pub open spec fn frame_views<T>(frames: Seq<Vec<T>>) -> Seq<Seq<T>> {
    Seq::new(frames.len(), |i: int| frames[i]@)
}

/// Lay frames end to end.
pub fn flatten_frames<T: Copy>(frames: &[Vec<T>]) -> (r: Vec<T>)
    ensures
        r@ == frame_views(frames@).flatten(),
{
    let mut out: Vec<T> = Vec::new();
    let mut i: usize = 0;
    while i < frames.len()
        invariant
            i <= frames.len(),
            out@ == frame_views(frames@.subrange(0, i as int)).flatten(),
        decreases frames.len() - i,
    {
        let f = &frames[i];
        let ghost before = out@;
        let mut k: usize = 0;
        while k < f.len()
            invariant
                k <= f.len(),
                out@ == before + f@.subrange(0, k as int),
            decreases f.len() - k,
        {
            out.push(f[k]);
            k += 1;
            assert(out@ =~= before + f@.subrange(0, k as int));
        }
        proof {
            let pre = frame_views(frames@.subrange(0, i as int));
            assert(frame_views(frames@.subrange(0, i + 1)) =~= pre.push(f@));
            pre.lemma_flatten_push(f@);
            assert(f@.subrange(0, k as int) =~= f@);
        }
        i += 1;
    }
    assert(frames@.subrange(0, i as int) =~= frames@);
    out
}

/// Cut symbols into frames of `n`, padding the last frame with `fill`.
pub fn chunk_frames<T: Copy>(symbols: &[T], n: usize, fill: T) -> (r: Vec<Vec<T>>)
    requires
        n > 0,
    ensures
        r@.len() == spec_chunk_frames(symbols@, n as nat, fill).len(),
        forall|f: int| 0 <= f < r@.len() ==> #[trigger] r@[f]@ == spec_chunk_frames(symbols@, n as nat, fill)[f],
{
    let len = symbols.len();
    proof {
        let q = (len as int) / (n as int);
        let m = (len as int) % (n as int);
        assert(len == q * n + m && 0 <= m < n && q >= 0) by (nonlinear_arith)
            requires q == (len as int) / (n as int), m == (len as int) % (n as int), n > 0, len >= 0;
        let k = len + n - 1;
        if m == 0 {
            vstd::arithmetic::div_mod::lemma_fundamental_div_mod_converse(k, n as int, q, n - 1);
        } else {
            assert(k == (q + 1) * n + (m - 1)) by (nonlinear_arith)
                requires len == q * n + m, k == len + n - 1;
            vstd::arithmetic::div_mod::lemma_fundamental_div_mod_converse(k, n as int, q + 1, m - 1);
            assert(q + 1 <= len) by (nonlinear_arith)
                requires len == q * n + m, 0 < m < n, q >= 0;
        }
    }
    let n_frames = len / n + if len % n != 0 { 1 } else { 0 };
    let ghost target = spec_chunk_frames(symbols@, n as nat, fill);
    let mut frames: Vec<Vec<T>> = Vec::new();
    let mut f: usize = 0;
    while f < n_frames
        invariant
            n > 0,
            len == symbols@.len(),
            n_frames == target.len(),
            n_frames == ceil_div(len as int, n as int),
            target == spec_chunk_frames(symbols@, n as nat, fill),
            f <= n_frames,
            frames@.len() == f,
            forall|g: int| 0 <= g < f ==> #[trigger] frames@[g]@ == target[g],
        decreases n_frames - f,
    {
        assert(f * n < len) by (nonlinear_arith)
            requires f < n_frames, n_frames == (len + n - 1) / (n as int), n > 0;
        let start = f * n;
        let mut frame: Vec<T> = Vec::new();
        let mut j: usize = 0;
        while j < n
            invariant
                n > 0,
                j <= n,
                len == symbols@.len(),
                start < len,
                frame@.len() == j,
                forall|i: int| 0 <= i < j ==> #[trigger] frame@[i] == padded_with(symbols@, start + i, fill),
            decreases n - j,
        {
            if j < len - start {
                frame.push(symbols[start + j]);
            } else {
                frame.push(fill);
            }
            j += 1;
        }
        assert(frame@ =~= target[f as int]);
        frames.push(frame);
        f += 1;
    }
    frames
}

/// The symbols that carry the 12-byte packet header.
pub open spec fn header_symbols(d: Depth) -> int {
    HEADER_SIZE as int * spb(d) as int
}

/// The symbols that carry a whole packet with a payload of `len` bytes.
pub open spec fn packet_symbols(len: int, d: Depth) -> int {
    (HEADER_SIZE as int + len) * spb(d) as int
}

/// What a decoder reads from the symbols of a stream's header: the payload
/// length and CRC when the sync magic is there, `None` otherwise.
pub open spec fn spec_parse_stream_header(symbols: Seq<usize>, magic: Seq<u8>, d: Depth) -> Option<(int, u32)> {
    let h = spec_symbols_to_bytes(symbols.subrange(0, header_symbols(d)), d);
    if h.subrange(0, 4) == magic {
        Some((from_le32(h.subrange(4, 8)) as int, from_le32(h.subrange(8, 12))))
    } else {
        None
    }
}

/// The frames of a stream header read from frame `offset` of `num_frames`
/// demodulated ones: `None` when `offset` is past the end, the header would run
/// past the end, or the frame arithmetic would overflow.
pub open spec fn spec_header_window(offset: int, num_frames: int, config: Config) -> Option<int> {
    if offset >= num_frames || config.n_bins + 96 > usize::MAX {
        None
    } else {
        let h = ceil_div(header_symbols(config.depth), config.n_bins as int);
        if offset + h > num_frames {
            None
        } else {
            Some(h)
        }
    }
}

/// The first step of decoding a stream from frame `offset` of `num_frames`:
/// how many frames hold its header, when they are all there.
pub fn header_window(offset: usize, num_frames: usize, config: &Config) -> (r: Option<usize>)
    requires
        config.n_bins > 0,
    ensures
        r is Some <==> spec_header_window(offset as int, num_frames as int, *config) is Some,
        r matches Some(h) ==> spec_header_window(offset as int, num_frames as int, *config) == Some(h as int),
{
    if offset >= num_frames || config.n_bins > usize::MAX - 96 {
        return None;
    }
    let h = stream_header_frames(config);
    if h > num_frames - offset {
        None
    } else {
        Some(h)
    }
}

/// The packet a stream header announces, read from the symbols of its frames:
/// the payload length, the expected CRC and the number of frames, from frame
/// `offset` of `num_frames`, that hold the whole packet. `None` when too few
/// symbols were read, the sync magic is not there, the packet would not fit
/// in a `usize` count of symbols, or it would run past the last frame.
pub open spec fn spec_packet_window(symbols: Seq<usize>, offset: int, num_frames: int, config: Config) -> Option<(int, u32, int)> {
    if symbols.len() < header_symbols(config.depth) {
        None
    } else {
        match spec_parse_stream_header(symbols, config.sync_magic@, config.depth) {
            None => None,
            Some((len, crc)) => {
                if packet_symbols(len, config.depth) + config.n_bins > usize::MAX {
                    None
                } else {
                    let total = ceil_div(packet_symbols(len, config.depth), config.n_bins as int);
                    if offset + total > num_frames {
                        None
                    } else {
                        Some((len, crc, total))
                    }
                }
            },
        }
    }
}

/// The second step of decoding a stream from frame `offset` of `num_frames`:
/// from the symbols of the header frames, the payload length, the expected
/// CRC and the number of frames that hold the whole packet.
pub fn packet_window(symbols: &[usize], offset: usize, num_frames: usize, config: &Config) -> (r: Option<(usize, u32, usize)>)
    requires
        config.n_bins > 0,
    ensures
        r is Some <==> spec_packet_window(symbols@, offset as int, num_frames as int, *config) is Some,
        r matches Some((len, crc, total)) ==> spec_packet_window(symbols@, offset as int, num_frames as int, *config)
            == Some((len as int, crc, total as int)),
{
    if symbols.len() < header_symbol_count(config) {
        return None;
    }
    let (payload_len, expected_crc) = match parse_stream_header(symbols, config) {
        Some(x) => x,
        None => return None,
    };
    if packet_symbol_count(payload_len, config).is_none() {
        return None;
    }
    let total = stream_frame_count(payload_len, config);
    if offset > num_frames || total > num_frames - offset {
        None
    } else {
        Some((payload_len, expected_crc, total))
    }
}

/// The payload a decoder reads from the symbols of a whole packet, when its
/// CRC32 is the expected one.
pub open spec fn spec_stream_payload(symbols: Seq<usize>, len: int, crc: u32, d: Depth) -> Option<Seq<u8>> {
    let all = spec_symbols_to_bytes(symbols.subrange(0, packet_symbols(len, d)), d);
    let p = all.subrange(HEADER_SIZE as int, HEADER_SIZE as int + len);
    if crc32_of(p) == crc {
        Some(p)
    } else {
        None
    }
}

/// Number of frames that hold the stream header.
pub fn stream_header_frames(config: &Config) -> (r: usize)
    requires
        config.n_bins > 0,
        config.n_bins + 96 <= usize::MAX,
    ensures
        r == ceil_div(header_symbols(config.depth), config.n_bins as int),
{
    let header_symbols = HEADER_SIZE * symbols_per_byte(config.depth);
    (header_symbols + config.n_bins - 1) / config.n_bins
}

/// Number of frames that hold a whole packet with a payload of `payload_len` bytes.
pub fn stream_frame_count(payload_len: usize, config: &Config) -> (r: usize)
    requires
        config.n_bins > 0,
        packet_symbols(payload_len as int, config.depth) + config.n_bins <= usize::MAX,
    ensures
        r == ceil_div(packet_symbols(payload_len as int, config.depth), config.n_bins as int),
{
    let per_byte = symbols_per_byte(config.depth);
    assert((HEADER_SIZE + payload_len) * per_byte <= usize::MAX && HEADER_SIZE + payload_len <= usize::MAX) by (nonlinear_arith)
        requires
            (HEADER_SIZE + payload_len) * per_byte + config.n_bins <= usize::MAX,
            per_byte >= 1;
    let total_symbols = (HEADER_SIZE + payload_len) * per_byte;
    (total_symbols + config.n_bins - 1) / config.n_bins
}

/// Number of symbols that carry the stream header.
pub fn header_symbol_count(config: &Config) -> (r: usize)
    ensures
        r == header_symbols(config.depth),
{
    HEADER_SIZE * symbols_per_byte(config.depth)
}

/// Number of symbols that carry a whole packet with a payload of `payload_len`
/// bytes, and a frame's worth more, when that fits in a `usize`.
pub fn packet_symbol_count(payload_len: usize, config: &Config) -> (r: Option<usize>)
    ensures
        r is Some <==> packet_symbols(payload_len as int, config.depth) + config.n_bins <= usize::MAX,
        r matches Some(x) ==> x == packet_symbols(payload_len as int, config.depth),
{
    let per_byte = symbols_per_byte(config.depth);
    if payload_len > usize::MAX - HEADER_SIZE {
        proof {
            assert((HEADER_SIZE + payload_len) * per_byte >= HEADER_SIZE + payload_len) by (nonlinear_arith)
                requires per_byte >= 1;
        }
        return None;
    }
    let bytes = HEADER_SIZE + payload_len;
    if bytes > (usize::MAX - config.n_bins) / per_byte {
        proof {
            assert(bytes * per_byte > usize::MAX - config.n_bins) by (nonlinear_arith)
                requires bytes > (usize::MAX - config.n_bins) / (per_byte as int), per_byte >= 1;
        }
        return None;
    }
    proof {
        assert(bytes * per_byte <= usize::MAX - config.n_bins) by (nonlinear_arith)
            requires bytes <= (usize::MAX - config.n_bins) / (per_byte as int), per_byte >= 1;
    }
    Some(bytes * per_byte)
}

/// Read the stream header from its symbols: the payload length and expected CRC,
/// or `None` when the sync magic is not there.
pub fn parse_stream_header(symbols: &[usize], config: &Config) -> (r: Option<(usize, u32)>)
    requires
        symbols@.len() >= header_symbols(config.depth),
    ensures
        match r {
            Some((len, crc)) => spec_parse_stream_header(symbols@, config.sync_magic@, config.depth)
                == Some((len as int, crc)),
            None => spec_parse_stream_header(symbols@, config.sync_magic@, config.depth) is None,
        },
{
    let hs = HEADER_SIZE * symbols_per_byte(config.depth);
    let header_data = symbols_to_bytes(&symbols[0..hs], config);
    assert(header_data@.len() == 12) by {
        assert((hs as int) / (spb(config.depth) as int) == 12) by (nonlinear_arith)
            requires hs == 12 * spb(config.depth), spb(config.depth) > 0;
    }
    let m = &config.sync_magic;
    if header_data[0] != m[0] || header_data[1] != m[1] || header_data[2] != m[2] || header_data[3] != m[3] {
        proof {
            let h = header_data@;
            if h.subrange(0, 4) == config.sync_magic@ {
                assert(h.subrange(0, 4)[0] == h[0]);
                assert(h.subrange(0, 4)[1] == h[1]);
                assert(h.subrange(0, 4)[2] == h[2]);
                assert(h.subrange(0, 4)[3] == h[3]);
            }
        }
        return None;
    }
    assert(header_data@.subrange(0, 4) =~= config.sync_magic@);
    let len = crate::framing::read_le32(header_data.as_slice(), 4);
    let crc = crate::framing::read_le32(header_data.as_slice(), 8);
    Some((len as usize, crc))
}

/// The payload carried by the symbols of a whole packet, when its CRC32 matches
/// `expected_crc`.
pub fn stream_payload(symbols: &[usize], payload_len: usize, expected_crc: u32, config: &Config) -> (r: Option<Vec<u8>>)
    requires
        packet_symbols(payload_len as int, config.depth) <= symbols@.len(),
    ensures
        match r {
            Some(p) => spec_stream_payload(symbols@, payload_len as int, expected_crc, config.depth) == Some(p@),
            None => spec_stream_payload(symbols@, payload_len as int, expected_crc, config.depth) is None,
        },
{
    let n_symbols = symbols.len();
    assert(HEADER_SIZE + payload_len <= n_symbols) by (nonlinear_arith)
        requires
            (HEADER_SIZE + payload_len) * spb(config.depth) <= n_symbols,
            spb(config.depth) >= 1;
    let total_symbols = (HEADER_SIZE + payload_len) * symbols_per_byte(config.depth);
    let all_data = symbols_to_bytes(&symbols[0..total_symbols], config);
    assert(all_data@.len() == HEADER_SIZE + payload_len) by {
        assert((total_symbols as int) / (spb(config.depth) as int) == HEADER_SIZE + payload_len) by (nonlinear_arith)
            requires total_symbols == (HEADER_SIZE + payload_len) * spb(config.depth), spb(config.depth) > 0;
    }
    let payload = &all_data.as_slice()[HEADER_SIZE..HEADER_SIZE + payload_len];
    if crate::framing::compute_crc(payload) != expected_crc {
        return None;
    }
    Some(vstd::slice::slice_to_vec(payload))
}


/// If a received symbol stream starts with the symbols of `bytes`, its first
/// `j * spb` symbols decode to the first `j` bytes.
proof fn lemma_decode_prefix(bytes: Seq<u8>, d: Depth, received: Seq<usize>, j: int)
    requires
        0 <= j <= bytes.len(),
        bytes.len() * spb(d) <= received.len(),
        received.subrange(0, (bytes.len() * spb(d)) as int) == spec_bytes_to_symbols(bytes, d),
    ensures
        spec_symbols_to_bytes(received.subrange(0, j * spb(d)), d) == bytes.subrange(0, j),
{
    let n = spb(d) as int;
    let syms = spec_bytes_to_symbols(bytes, d);
    assert(j * n <= bytes.len() * n) by (nonlinear_arith)
        requires 0 <= j <= bytes.len(), n > 0;
    let a = received.subrange(0, j * n);
    let b = syms.subrange(0, j * n);
    let full = received.subrange(0, bytes.len() * n);
    assert forall|k: int| 0 <= k < j * n implies #[trigger] a[k] == b[k] by {
        assert(received[k] == full[k]);
    }
    assert(a =~= b);
    lemma_bytes_to_symbols_prefix(bytes, d, j);
    lemma_symbols_bytes_roundtrip(bytes.subrange(0, j), d);
}

/// Law: the symbols of a framed packet, followed by anything (such as the zero
/// padding of the last frame), decode back to the packet: the header yields the
/// payload length and CRC32, and the payload symbols yield the payload.
pub proof fn lemma_stream_roundtrip(payload: Seq<u8>, magic: Seq<u8>, d: Depth, received: Seq<usize>)
    requires
        magic.len() == 4,
        payload.len() <= u32::MAX,
        packet_symbols(payload.len() as int, d) <= received.len(),
        received.subrange(0, packet_symbols(payload.len() as int, d))
            == spec_bytes_to_symbols(packet_bytes(payload, magic), d),
    ensures
        spec_parse_stream_header(received, magic, d) == Some((payload.len() as int, crc32_of(payload))),
        spec_stream_payload(received, payload.len() as int, crc32_of(payload), d) == Some(payload),
{
    let pkt = packet_bytes(payload, magic);
    lemma_packet_fields(payload, magic);
    assert(packet_symbols(payload.len() as int, d) == pkt.len() * spb(d));
    lemma_decode_prefix(pkt, d, received, 12);
    lemma_decode_prefix(pkt, d, received, pkt.len() as int);
    assert(pkt.subrange(0, pkt.len() as int) =~= pkt);
}

/// The fields of a framed packet.
proof fn lemma_packet_fields(payload: Seq<u8>, magic: Seq<u8>)
    requires
        magic.len() == 4,
        payload.len() <= u32::MAX,
    ensures
        ({
            let pkt = packet_bytes(payload, magic);
            &&& pkt.len() == 12 + payload.len()
            &&& pkt.subrange(0, 12).subrange(0, 4) == magic
            &&& from_le32(pkt.subrange(0, 12).subrange(4, 8)) == payload.len()
            &&& from_le32(pkt.subrange(0, 12).subrange(8, 12)) == crc32_of(payload)
            &&& pkt.subrange(12, 12 + payload.len() as int) == payload
        }),
{
    let pkt = packet_bytes(payload, magic);
    let h = pkt.subrange(0, 12);
    assert(h.subrange(0, 4) =~= magic);
    let l = le32(payload.len() as u32);
    assert(h.subrange(4, 8) =~= l);
    assert(from_le32(l) == payload.len()) by {
        crate::framing::lemma_le32_roundtrip(payload.len() as u32);
    }
    let c = le32(crc32_of(payload));
    assert(h.subrange(8, 12) =~= c);
    assert(from_le32(c) == crc32_of(payload)) by {
        crate::framing::lemma_le32_roundtrip(crc32_of(payload));
    }
    assert(pkt.subrange(12, 12 + payload.len() as int) =~= payload);
}

/// Frames laid end to end.
pub open spec fn flatten(frames: Seq<Seq<usize>>) -> Seq<usize>
    decreases frames.len(),
{
    if frames.len() == 0 {
        Seq::empty()
    } else {
        flatten(frames.drop_last()) + frames.last()
    }
}

/// Frames of `n` symbols each, laid end to end: symbol `i` is symbol `i % n`
/// of frame `i / n`.
proof fn lemma_flatten_uniform(frames: Seq<Seq<usize>>, n: nat)
    requires
        n > 0,
        forall|f: int| 0 <= f < frames.len() ==> #[trigger] frames[f].len() == n,
    ensures
        flatten(frames).len() == frames.len() * n,
        forall|i: int| 0 <= i < frames.len() * n ==> #[trigger] flatten(frames)[i] == frames[i / (n as int)][i % (n as int)],
    decreases frames.len(),
{
    if frames.len() > 0 {
        let init = frames.drop_last();
        lemma_flatten_uniform(init, n);
        let ni = n as int;
        let m = init.len() as int;
        assert((m + 1) * ni == m * ni + ni) by (nonlinear_arith);
        assert forall|i: int| 0 <= i < frames.len() * n implies #[trigger] flatten(frames)[i] == frames[i / ni][i % ni] by {
            if i < m * ni {
                assert(i / ni < m) by (nonlinear_arith)
                    requires 0 <= i < m * ni, ni > 0;
                assert(i / ni >= 0) by (nonlinear_arith)
                    requires 0 <= i, ni > 0;
                assert(flatten(frames)[i] == flatten(init)[i]);
            } else {
                let j = i - m * ni;
                assert(i / ni == m && i % ni == j) by (nonlinear_arith)
                    requires i == m * ni + j, 0 <= j < ni;
            }
        }
    }
}

/// Law: the frames `symbols_to_frames` lays a stream out in, read back end to
/// end, are the stream followed by the zero padding of the last frame.
pub proof fn lemma_frames_flatten(symbols: Seq<usize>, n: nat)
    requires
        n > 0,
    ensures
        flatten(spec_symbols_to_frames(symbols, n)).len() >= symbols.len(),
        flatten(spec_symbols_to_frames(symbols, n)).subrange(0, symbols.len() as int) == symbols,
        forall|i: int| symbols.len() <= i < flatten(spec_symbols_to_frames(symbols, n)).len()
            ==> #[trigger] flatten(spec_symbols_to_frames(symbols, n))[i] == 0,
{
    let frames = spec_symbols_to_frames(symbols, n);
    let ni = n as int;
    let c = frames.len() as int;
    lemma_flatten_uniform(frames, n);
    assert(c * ni >= symbols.len()) by (nonlinear_arith)
        requires c == (symbols.len() + ni - 1) / ni, ni > 0;
    let fl = flatten(frames);
    assert forall|i: int| 0 <= i < c * ni implies #[trigger] fl[i] == padded_symbol(symbols, i) by {
        let f = i / ni;
        let j = i % ni;
        assert(f * ni + j == i && 0 <= j < ni && 0 <= f < c) by (nonlinear_arith)
            requires 0 <= i < c * ni, f == i / ni, j == i % ni, ni > 0;
    }
    assert(fl.subrange(0, symbols.len() as int) =~= symbols);
}

/// Law: a receiver that demodulates the frames a packet was laid out in, from
/// its first frame, reads the packet's payload length and CRC32 from the
/// header frames, needs exactly as many frames as were sent, and recovers the
/// payload.
pub proof fn lemma_wrap_unwrap_symbols(payload: Seq<u8>, magic: Seq<u8>, d: Depth, n: nat)
    requires
        magic.len() == 4,
        payload.len() <= u32::MAX,
        n > 0,
    ensures
        ({
            let sent = spec_symbols_to_frames(spec_bytes_to_symbols(packet_bytes(payload, magic), d), n);
            let received = flatten(sent);
            &&& spec_parse_stream_header(received, magic, d) == Some((payload.len() as int, crc32_of(payload)))
            &&& ceil_div(packet_symbols(payload.len() as int, d), n as int) == sent.len()
            &&& spec_stream_payload(received, payload.len() as int, crc32_of(payload), d) == Some(payload)
        }),
{
    let pkt = packet_bytes(payload, magic);
    let syms = spec_bytes_to_symbols(pkt, d);
    let received = flatten(spec_symbols_to_frames(syms, n));
    lemma_frames_flatten(syms, n);
    lemma_packet_fields(payload, magic);
    assert(packet_symbols(payload.len() as int, d) == syms.len());
    lemma_stream_roundtrip(payload, magic, d, received);
}

} // verus!
