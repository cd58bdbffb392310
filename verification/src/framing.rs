//! Packet framing.
//!
//! Wire format (little-endian):
//!   `[sync magic: 4B] [payload_length: u32 LE] [crc32: u32 LE] [payload...]`
//!
//! A wire header can be prepended so that a decoder learns the encoding
//! parameters.

use vstd::prelude::*;
use vstd::utf8::encode_utf8;

use crate::compress::{compress, decompress, zstd_decoded, zstd_encoded, LEVEL};
use crate::config::{
    header_bytes, parse_header, spec_from_config, Config, WireHeader, WireHeaderView,
};

verus! {

/// Why a packet could not be recovered.
#[derive(Debug)]
pub enum FrameError {
    /// The sync magic does not occur.
    NoSync,
    /// The payload's CRC32 differs from the one in the header.
    CrcMismatch { expected: u32, actual: u32 },
    /// The bytes end before the header or the payload does.
    TooShort { need: usize, got: usize },
    /// No wire header could be parsed.
    BadWireHeader,
    /// The payload was marked compressed but did not decompress.
    DecompressError(String),
}

/// Packet header size: 4 (magic) + 4 (length) + 4 (crc32).
pub const HEADER_SIZE: usize = 12;

/// One step of the reflected CRC-32 register: shift right by one bit, and
/// fold in the IEEE polynomial (reversed, `0xEDB88320`) when a one fell out.
pub open spec fn crc32_step(c: u32) -> u32 {
    if c & 1 == 1 {
        (c >> 1u32) ^ 0xEDB8_8320u32
    } else {
        c >> 1u32
    }
}

/// `n` steps of the register.
pub open spec fn crc32_steps(c: u32, n: nat) -> u32
    decreases n,
{
    if n == 0 {
        c
    } else {
        crc32_steps(crc32_step(c), (n - 1) as nat)
    }
}

/// The register after `data`, starting from all ones; each byte is xored
/// into the low bits and then shifted through eight steps.
pub open spec fn crc32_register(data: Seq<u8>) -> u32
    decreases data.len(),
{
    if data.len() == 0 {
        0xFFFF_FFFFu32
    } else {
        crc32_steps(crc32_register(data.drop_last()) ^ (data.last() as u32), 8)
    }
}

/// The CRC-32 (IEEE 802.3, reflected) checksum of a byte string: the final
/// register, inverted.
pub open spec fn crc32_of(data: Seq<u8>) -> u32 {
    crc32_register(data) ^ 0xFFFF_FFFFu32
}

/// `crc32fast::hash`: claimed to compute the standard CRC-32 (IEEE) of
/// `data`, which is what `crc32_of` defines bit by bit.
#[verifier::external_body]
pub(crate) fn compute_crc(data: &[u8]) -> (r: u32)
    ensures
        r == crc32_of(data@),
{
    crc32fast::hash(data)
}

/// Little-endian bytes of a `u32`.
pub open spec fn le32(v: u32) -> Seq<u8> {
    seq![
        (v % 0x100) as u8,
        ((v / 0x100) % 0x100) as u8,
        ((v / 0x1_0000) % 0x100) as u8,
        (v / 0x100_0000) as u8,
    ]
}

/// The `u32` that four little-endian bytes hold.
pub open spec fn from_le32(b: Seq<u8>) -> u32 {
    (b[0] as int + b[1] as int * 0x100 + b[2] as int * 0x1_0000 + b[3] as int * 0x100_0000) as u32
}

/// Reading back the little-endian bytes of a `u32` gives the `u32`.
pub proof fn lemma_le32_roundtrip(v: u32)
    ensures
        from_le32(le32(v)) == v,
{
}

/// A framed packet: magic, payload length, CRC32 of the payload, payload.
pub open spec fn packet_bytes(payload: Seq<u8>, magic: Seq<u8>) -> Seq<u8> {
    magic + le32(payload.len() as u32) + le32(crc32_of(payload)) + payload
}

/// The sync magic starts at position `i` of `data`.
pub open spec fn sync_at(data: Seq<u8>, magic: Seq<u8>, i: int) -> bool {
    &&& 0 <= i
    &&& i + 4 <= data.len()
    &&& data.subrange(i, i + 4) == magic
}

/// The sync magic starts nowhere before position `end`.
pub open spec fn no_sync_before(data: Seq<u8>, magic: Seq<u8>, end: int) -> bool {
    forall|j: int| 0 <= j < end ==> !#[trigger] sync_at(data, magic, j)
}

/// The first position where the sync magic starts, if any.
pub open spec fn first_sync(data: Seq<u8>, magic: Seq<u8>) -> Option<int> {
    if exists|i: int| #[trigger] sync_at(data, magic, i) && no_sync_before(data, magic, i) {
        Some(choose|i: int| #[trigger] sync_at(data, magic, i) && no_sync_before(data, magic, i))
    } else {
        None
    }
}

/// Where the magic occurs at `j`, an occurrence at or before `j` has none
/// before it.
proof fn lemma_earliest_sync(data: Seq<u8>, magic: Seq<u8>, j: int)
    requires
        sync_at(data, magic, j),
    ensures
        exists|k: int| #[trigger] sync_at(data, magic, k) && no_sync_before(data, magic, k),
    decreases j,
{
    if !no_sync_before(data, magic, j) {
        let j2 = choose|j2: int| 0 <= j2 < j && #[trigger] sync_at(data, magic, j2);
        lemma_earliest_sync(data, magic, j2);
    }
}

/// Law: there is no first occurrence of the sync magic exactly when it occurs
/// nowhere in `data`.
pub proof fn lemma_first_sync_none(data: Seq<u8>, magic: Seq<u8>)
    ensures
        first_sync(data, magic) is None <==> no_sync_before(data, magic, data.len() as int),
{
    if no_sync_before(data, magic, data.len() as int) {
        if exists|k: int| #[trigger] sync_at(data, magic, k) && no_sync_before(data, magic, k) {
            let k = choose|k: int| #[trigger] sync_at(data, magic, k) && no_sync_before(data, magic, k);
            assert(!sync_at(data, magic, k));
        }
    } else {
        let j = choose|j: int| 0 <= j < data.len() && #[trigger] sync_at(data, magic, j);
        lemma_earliest_sync(data, magic, j);
    }
}

/// The payload that `deframe` recovers from `data`, or `None` when it fails.
pub open spec fn spec_deframed(data: Seq<u8>, magic: Seq<u8>) -> Option<Seq<u8>> {
    match spec_deframe(data, magic) {
        Ok(p) => Some(p),
        Err(_) => None,
    }
}

/// What `deframe` makes of `data`: the payload after the first sync magic when
/// the header is complete, the payload is present and its CRC matches.
pub open spec fn spec_deframe(data: Seq<u8>, magic: Seq<u8>) -> Result<Seq<u8>, FrameError> {
    match first_sync(data, magic) {
        None => Err(FrameError::NoSync),
        Some(p) => {
            let rem = data.subrange(p, data.len() as int);
            if rem.len() < 12 {
                Err(FrameError::TooShort { need: 12, got: rem.len() as usize })
            } else {
                let len = from_le32(rem.subrange(4, 8));
                let expected = from_le32(rem.subrange(8, 12));
                if rem.len() < 12 + len {
                    Err(FrameError::TooShort { need: (12 + len) as usize, got: rem.len() as usize })
                } else {
                    let payload = rem.subrange(12, 12 + len);
                    let actual = crc32_of(payload);
                    if actual != expected {
                        Err(FrameError::CrcMismatch { expected, actual })
                    } else {
                        Ok(payload)
                    }
                }
            }
        },
    }
}

/// If `p` is a sync position with none before it, it is the first one.
proof fn lemma_first_sync_is(data: Seq<u8>, magic: Seq<u8>, p: int)
    requires
        sync_at(data, magic, p),
        no_sync_before(data, magic, p),
    ensures
        first_sync(data, magic) == Some(p),
{
    let q = choose|i: int| #[trigger] sync_at(data, magic, i) && no_sync_before(data, magic, i);
    assert(sync_at(data, magic, q) && no_sync_before(data, magic, q));
    if q < p {
        assert(!sync_at(data, magic, q));
    } else if p < q {
        assert(!sync_at(data, magic, p));
    }
}

/// Append `src` to `out`.
pub(crate) fn append_bytes(out: &mut Vec<u8>, src: &[u8])
    ensures
        final(out)@ == old(out)@ + src@,
{
    let ghost start = out@;
    let mut i: usize = 0;
    while i < src.len()
        invariant
            i <= src@.len(),
            out@ == start + src@.subrange(0, i as int),
        decreases src@.len() - i,
    {
        out.push(src[i]);
        i += 1;
        assert(src@.subrange(0, i as int) == src@.subrange(0, i - 1) + seq![src@[i - 1]]);
    }
    assert(src@.subrange(0, src@.len() as int) == src@);
}

/// Append the little-endian bytes of `v` to `out`.
pub(crate) fn append_le32(out: &mut Vec<u8>, v: u32)
    ensures
        final(out)@ == old(out)@ + le32(v),
{
    out.push((v % 0x100) as u8);
    out.push(((v / 0x100) % 0x100) as u8);
    out.push(((v / 0x1_0000) % 0x100) as u8);
    out.push((v / 0x100_0000) as u8);
    assert(out@ =~= old(out)@ + le32(v));
}

/// Read a little-endian `u32` from four bytes of `b` starting at `at`.
pub(crate) fn read_le32(b: &[u8], at: usize) -> (r: u32)
    requires
        at + 4 <= b@.len(),
    ensures
        r == from_le32(b@.subrange(at as int, at + 4)),
{
    let v = b[at] as u32 + (b[at + 1] as u32) * 0x100 + (b[at + 2] as u32) * 0x1_0000
        + (b[at + 3] as u32) * 0x100_0000;
    v
}

/// Build a framed packet: sync magic, length, CRC32, payload. All multi-byte
/// values are little-endian. The length field holds the payload length modulo 2^32.
pub fn frame(payload: &[u8], config: &Config) -> (r: Vec<u8>)
    ensures
        r@ == packet_bytes(payload@, config.sync_magic@),
{
    let crc = compute_crc(payload);
    let len = payload.len() as u32;
    let mut out: Vec<u8> = Vec::new();
    append_bytes(&mut out, config.sync_magic.as_slice());
    append_le32(&mut out, len);
    append_le32(&mut out, crc);
    append_bytes(&mut out, payload);
    out
}

/// The first position where `magic` starts in `data`.
pub fn find_sync(data: &[u8], magic: &[u8; 4]) -> (r: Option<usize>)
    ensures
        r matches Some(p) ==> sync_at(data@, magic@, p as int) && no_sync_before(data@, magic@, p as int),
        r is None ==> no_sync_before(data@, magic@, data@.len() as int),
        r matches Some(p) ==> first_sync(data@, magic@) == Some(p as int),
        r is None ==> first_sync(data@, magic@) is None,
{
    let n = data.len();
    let mut i: usize = 0;
    while n >= 4 && i <= n - 4
        invariant
            n == data@.len(),
            i <= n,
            no_sync_before(data@, magic@, i as int),
        decreases n - i,
    {
        if data[i] == magic[0] && data[i + 1] == magic[1] && data[i + 2] == magic[2]
            && data[i + 3] == magic[3] {
            assert(data@.subrange(i as int, i + 4) =~= magic@);
            proof {
                lemma_first_sync_is(data@, magic@, i as int);
            }
            return Some(i);
        }
        assert(!sync_at(data@, magic@, i as int)) by {
            if sync_at(data@, magic@, i as int) {
                assert(data@.subrange(i as int, i + 4)[0] == magic@[0]);
                assert(data@.subrange(i as int, i + 4)[1] == magic@[1]);
                assert(data@.subrange(i as int, i + 4)[2] == magic@[2]);
                assert(data@.subrange(i as int, i + 4)[3] == magic@[3]);
            }
        }
        i += 1;
    }
    assert(no_sync_before(data@, magic@, data@.len() as int));
    proof {
        lemma_first_sync_none(data@, magic@);
    }
    None
}

/// Extract and verify a framed payload from raw bytes.
pub fn deframe(data: &[u8], config: &Config) -> (r: Result<Vec<u8>, FrameError>)
    ensures
        match r {
            Ok(v) => spec_deframe(data@, config.sync_magic@) == Ok::<Seq<u8>, FrameError>(v@),
            Err(e) => spec_deframe(data@, config.sync_magic@) == Err::<Seq<u8>, FrameError>(e),
        },
{
    let sync_pos = match find_sync(data, &config.sync_magic) {
        Some(p) => p,
        None => return Err(FrameError::NoSync),
    };
    let remaining = &data[sync_pos..data.len()];
    if remaining.len() < HEADER_SIZE {
        return Err(FrameError::TooShort { need: HEADER_SIZE, got: remaining.len() });
    }
    let length = read_le32(remaining, 4);
    let expected_crc = read_le32(remaining, 8);
    if (remaining.len() as u64) < HEADER_SIZE as u64 + length as u64 {
        return Err(FrameError::TooShort {
            need: (HEADER_SIZE as u64 + length as u64) as usize,
            got: remaining.len(),
        });
    }
    let payload_end = HEADER_SIZE + length as usize;
    let payload = &remaining[HEADER_SIZE..payload_end];
    let actual_crc = compute_crc(payload);
    if actual_crc != expected_crc {
        return Err(FrameError::CrcMismatch { expected: expected_crc, actual: actual_crc });
    }
    Ok(vstd::slice::slice_to_vec(payload))
}

/// Framing a payload of fewer than 2^32 bytes and deframing the packet gives
/// the payload back.
pub proof fn lemma_deframe_frame(payload: Seq<u8>, magic: Seq<u8>)
    requires
        magic.len() == 4,
        payload.len() <= u32::MAX,
    ensures
        spec_deframe(packet_bytes(payload, magic), magic) == Ok::<Seq<u8>, FrameError>(payload),
{
    lemma_deframe_after_garbage(Seq::empty(), payload, magic);
    assert(Seq::<u8>::empty() + packet_bytes(payload, magic) =~= packet_bytes(payload, magic));
}

/// A packet preceded by bytes in which no sync magic starts (counting matches
/// that run into the packet) still deframes to its payload.
#[verifier::rlimit(40)]
#[verifier::spinoff_prover]
pub proof fn lemma_deframe_after_garbage(garbage: Seq<u8>, payload: Seq<u8>, magic: Seq<u8>)
    requires
        magic.len() == 4,
        payload.len() <= u32::MAX,
        no_sync_before(garbage + packet_bytes(payload, magic), magic, garbage.len() as int),
    ensures
        spec_deframe(garbage + packet_bytes(payload, magic), magic) == Ok::<Seq<u8>, FrameError>(payload),
{
    let pkt = packet_bytes(payload, magic);
    let data = garbage + pkt;
    let g = garbage.len() as int;
    assert(data.subrange(g, g + 4) =~= magic);
    lemma_first_sync_is(data, magic, g);
    let rem = data.subrange(g, data.len() as int);
    assert(rem =~= pkt);
    let l = payload.len() as u32;
    assert(rem.subrange(4, 8) =~= le32(l));
    assert(from_le32(le32(l)) == l);
    assert(rem.subrange(8, 12) =~= le32(crc32_of(payload)));
    assert(from_le32(le32(crc32_of(payload))) == crc32_of(payload));
    assert(rem.subrange(12, 12 + payload.len() as int) =~= payload);
}

/// Try to extract a wire header from the front of raw bytes.
pub fn extract_wire_header(data: &[u8]) -> (r: Option<(WireHeader, usize)>)
    ensures
        r is Some <==> parse_header(data@) is Some,
        r matches Some((h, n)) ==> parse_header(data@) == Some((h@, n as int)),
{
    WireHeader::from_bytes(data)
}

/// The bytes that are framed: the zstd frame of the payload when compressing,
/// the payload itself otherwise.
pub open spec fn framed_payload(payload: Seq<u8>, compress: bool) -> Seq<u8> {
    if compress {
        zstd_encoded(payload, LEVEL)
    } else {
        payload
    }
}

/// The wire header `frame_with_header` writes.
pub open spec fn framed_header(config: Config, compress: bool, filename: Seq<char>) -> WireHeaderView {
    WireHeaderView {
        compression: if compress { 1u8 } else { 0u8 },
        filename,
        ..spec_from_config(config)
    }
}

/// What `deframe_with_header` makes of `data`: the wire header, then the packet
/// after it, decompressed when the header says compression 1.
pub open spec fn spec_deframe_with_header(data: Seq<u8>, magic: Seq<u8>) -> Result<(WireHeaderView, Seq<u8>), FrameError> {
    match parse_header(data) {
        None => Err(FrameError::BadWireHeader),
        Some((h, n)) => match spec_deframe(data.subrange(n, data.len() as int), magic) {
            Err(e) => Err(e),
            Ok(p) => if h.compression == 1 {
                match zstd_decoded(p) {
                    Some(d) => Ok((h, d)),
                    None => Err(FrameError::DecompressError(arbitrary())),
                }
            } else {
                Ok((h, p))
            },
        },
    }
}

/// Build a framed packet with the wire header in front, zstd-compressing the
/// payload first when `compress` is set:
/// `[wire header] [sync: 4B] [length: 4B] [crc32: 4B] [payload...]`.
///
/// When the filename fits the header's one-byte length field and the framed
/// bytes are fewer than 2^32, `deframe_with_header` recovers this header and
/// the payload from the output.
pub fn frame_with_header(payload: &[u8], config: &Config, compress: bool, filename: &str) -> (r: Vec<u8>)
    requires
        encode_utf8(filename@).len() + 10 <= usize::MAX,
    ensures
        r@ == header_bytes(framed_header(*config, compress, filename@))
            + packet_bytes(framed_payload(payload@, compress), config.sync_magic@),
        (encode_utf8(filename@).len() <= 255 && framed_payload(payload@, compress).len() <= u32::MAX)
            ==> match spec_deframe_with_header(r@, config.sync_magic@) {
                Ok((h, d)) => h == framed_header(*config, compress, filename@) && d == payload@,
                Err(_) => false,
            },
{
    let processed = if compress {
        crate::compress::compress(payload)
    } else {
        vstd::slice::slice_to_vec(payload)
    };
    let mut wire = WireHeader::from_config(config);
    wire.compression = if compress { 1 } else { 0 };
    wire.filename = filename.to_owned();
    assert(wire@ == framed_header(*config, compress, filename@));
    let crc = compute_crc(processed.as_slice());
    let len = processed.len() as u32;
    let mut out = wire.to_bytes();
    append_bytes(&mut out, config.sync_magic.as_slice());
    append_le32(&mut out, len);
    append_le32(&mut out, crc);
    append_bytes(&mut out, processed.as_slice());
    proof {
        let hb = header_bytes(wire@);
        let pk = packet_bytes(processed@, config.sync_magic@);
        assert(out@ =~= hb + pk);
        if encode_utf8(filename@).len() <= 255 && processed@.len() <= u32::MAX {
            crate::config::lemma_wire_header_roundtrip(wire);
            assert((hb + pk).subrange(0, hb.len() as int) =~= hb);
            crate::config::lemma_parse_header_prefix(hb, pk);
            assert((hb + pk).subrange(hb.len() as int, (hb + pk).len() as int) =~= pk);
            lemma_deframe_frame(processed@, config.sync_magic@);
        }
    }
    out
}

/// Extract the wire header, deframe the packet after it, and decompress the
/// payload when the header says so. Returns the header and the payload.
pub fn deframe_with_header(data: &[u8], config: &Config) -> (r: Result<(WireHeader, Vec<u8>), FrameError>)
    ensures
        match r {
            Ok((h, v)) => spec_deframe_with_header(data@, config.sync_magic@) == Ok::<(WireHeaderView, Seq<u8>), FrameError>((h@, v@)),
            Err(FrameError::DecompressError(_)) => spec_deframe_with_header(data@, config.sync_magic@) matches Err(FrameError::DecompressError(_)),
            Err(e) => spec_deframe_with_header(data@, config.sync_magic@) == Err::<(WireHeaderView, Seq<u8>), FrameError>(e),
        },
{
    let (wire, offset) = match extract_wire_header(data) {
        Some(x) => x,
        None => return Err(FrameError::BadWireHeader),
    };
    let payload = match deframe(&data[offset..data.len()], config) {
        Ok(p) => p,
        Err(e) => return Err(e),
    };
    if wire.compression == 1 {
        match decompress(payload.as_slice()) {
            Ok(d) => Ok((wire, d)),
            Err(e) => Err(FrameError::DecompressError(e.to_string())),
        }
    } else {
        Ok((wire, payload))
    }
}

} // verus!
