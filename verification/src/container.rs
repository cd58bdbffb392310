//! The `.yip` file layout: `"YIP"`, a format version byte (3), the wire
//! header, then the Opus packet container. The payload in the packets is the
//! framed data, zstd-compressed first when the header's compression flag is 1.

use vstd::prelude::*;
use vstd::utf8::encode_utf8;

use crate::compress::{compress, decompress, zstd_decoded, zstd_encoded, LEVEL};
use crate::config::{header_bytes, parse_header, spec_from_config, Config, WireHeader, WireHeaderView};
use crate::opus::{bytes_to_packets, container_bytes, packets_to_bytes, parse_container};
use crate::differential::copy_frame;

verus! {

/// `"YIP"`: the first three bytes of every `.yip` file.
pub open spec fn yip_tag() -> Seq<u8> {
    seq![0x59u8, 0x49u8, 0x50u8]
}

/// The `.yip` format version written after the tag.
pub const YIP_VERSION: u8 = 3;

/// The bytes of a `.yip` file holding `packets` under header `h`.
pub open spec fn yip_file_bytes(h: WireHeaderView, packets: Seq<Seq<u8>>) -> Seq<u8> {
    yip_tag() + seq![YIP_VERSION] + header_bytes(h) + container_bytes(packets)
}

/// The front of a `.yip` file: its format version byte, its header and the
/// offset of the packet container, or `None` for a file shorter than 12 bytes,
/// without the tag, or whose header does not parse.
pub open spec fn spec_yip_file_header(file: Seq<u8>) -> Option<(u8, WireHeaderView, int)> {
    if file.len() < 12 || file.subrange(0, 3) != yip_tag() {
        None
    } else {
        match parse_header(file.subrange(4, file.len() as int)) {
            None => None,
            Some((h, size)) => Some((file[3], h, 4 + size)),
        }
    }
}

/// What a reader finds in a `.yip` file: its header and packets, or `None` when
/// the front does not parse or the packet container is cut short. The version
/// byte is not checked.
pub open spec fn spec_parse_yip_file(file: Seq<u8>) -> Option<(WireHeaderView, Seq<Seq<u8>>)> {
    match spec_yip_file_header(file) {
        None => None,
        Some((_, h, off)) => match parse_container(file.subrange(off, file.len() as int)) {
            None => None,
            Some(ps) => Some((h, ps)),
        },
    }
}

/// The contents of a list of packets.
pub open spec fn packets_view(v: Seq<Vec<u8>>) -> Seq<Seq<u8>> {
    v.map_values(|p: Vec<u8>| p@)
}

/// The payload bytes as stored: zstd-compressed when `compression == 1`.
pub open spec fn stored_payload(data: Seq<u8>, compressed: bool) -> Seq<u8> {
    if compressed { zstd_encoded(data, LEVEL) } else { data }
}

/// What a reader recovers from stored payload bytes under a compression flag:
/// the zstd decoding for flag 1 (`None` if invalid), the bytes themselves otherwise.
pub open spec fn restored_payload(payload: Seq<u8>, compression: u8) -> Option<Seq<u8>> {
    if compression == 1 { zstd_decoded(payload) } else { Some(payload) }
}

/// The header a `.yip` file carries for `config`: the configuration's header
/// with the compression flag and the name of the packed file.
pub fn yip_wire_header(config: &Config, compress: bool, filename: &str) -> (h: WireHeader)
    ensures
        h@ == (WireHeaderView {
            compression: if compress { 1u8 } else { 0u8 },
            filename: filename@,
            ..spec_from_config(*config)
        }),
{
    let mut wire = WireHeader::from_config(config);
    wire.compression = if compress { 1 } else { 0 };
    wire.filename = String::from_str(filename);
    wire
}

/// The payload bytes to store: `data`, zstd-compressed when `compress`. Reading
/// them back under the matching flag gives `data`.
pub fn yip_payload(data: &[u8], compress_flag: bool) -> (r: Vec<u8>)
    ensures
        r@ == stored_payload(data@, compress_flag),
        restored_payload(r@, if compress_flag { 1u8 } else { 0u8 }) == Some(data@),
{
    if compress_flag {
        compress(data)
    } else {
        copy_frame(data)
    }
}

/// Recover the data from stored payload bytes: zstd-decompress them when the
/// header's compression flag is 1, otherwise return them as they are.
pub fn restore_payload(payload: Vec<u8>, wire: &WireHeader) -> (r: Result<Vec<u8>, std::io::Error>)
    ensures
        r is Ok <==> restored_payload(payload@, wire.compression) is Some,
        r matches Ok(v) ==> restored_payload(payload@, wire.compression) == Some(v@),
{
    if wire.compression == 1 {
        decompress(payload.as_slice())
    } else {
        Ok(payload)
    }
}

/// The bytes of a `.yip` file: tag, version, header, packet container.
pub fn build_yip_file(wire: &WireHeader, packets: &[Vec<u8>]) -> (r: Vec<u8>)
    requires
        encode_utf8(wire.filename@).len() + 10 <= usize::MAX,
    ensures
        r@ == yip_file_bytes(wire@, packets_view(packets@)),
{
    let mut out: Vec<u8> = Vec::new();
    out.push(0x59);
    out.push(0x49);
    out.push(0x50);
    out.push(YIP_VERSION);
    let header = wire.to_bytes();
    crate::framing::append_bytes(&mut out, header.as_slice());
    let body = packets_to_bytes(packets);
    crate::framing::append_bytes(&mut out, body.as_slice());
    assert(out@ =~= yip_file_bytes(wire@, packets_view(packets@)));
    out
}

/// Read the format version, the header and the offset of the packets of a
/// `.yip` file; `None` when the file does not start in the format.
pub fn yip_file_header(file: &[u8]) -> (r: Option<(u8, WireHeader, usize)>)
    ensures
        r is Some <==> spec_yip_file_header(file@) is Some,
        r matches Some((v, h, off)) ==> spec_yip_file_header(file@) == Some((v, h@, off as int)),
        r matches Some((v, h, off)) ==> off <= file@.len(),
{
    let len = file.len();
    if len < 12 || file[0] != 0x59 || file[1] != 0x49 || file[2] != 0x50 {
        proof {
            if len >= 12 {
                assert(file@.subrange(0, 3) != yip_tag()) by {
                    if file@.subrange(0, 3) == yip_tag() {
                        assert(file@.subrange(0, 3)[0] == file@[0]);
                        assert(file@.subrange(0, 3)[1] == file@[1]);
                        assert(file@.subrange(0, 3)[2] == file@[2]);
                    }
                }
            }
        }
        return None;
    }
    assert(file@.subrange(0, 3) =~= yip_tag());
    let rest = &file[4..len];
    assert(rest@ == file@.subrange(4, len as int));
    match WireHeader::from_bytes(rest) {
        Some((wire, size)) => {
            proof {
                assert(parse_header(rest@) == Some((wire@, size as int)));
            }
            Some((file[3], wire, 4 + size))
        },
        None => None,
    }
}

/// Read the header and packets of a `.yip` file; `None` when the file is not
/// in the format.
pub fn parse_yip_file(file: &[u8]) -> (r: Option<(WireHeader, Vec<Vec<u8>>)>)
    ensures
        r is Some <==> spec_parse_yip_file(file@) is Some,
        r matches Some((h, ps)) ==> spec_parse_yip_file(file@) == Some((h@, packets_view(ps@))),
{
    let (_version, wire, offset) = match yip_file_header(file) {
        Some(x) => x,
        None => return None,
    };
    let body = &file[offset..file.len()];
    assert(body@ == file@.subrange(offset as int, file@.len() as int));
    match bytes_to_packets(body) {
        Some(ps) => Some((wire, ps)),
        None => None,
    }
}

/// Law: a `.yip` file written for a header of version 3 or later with a
/// filename of at most 255 UTF-8 bytes, and at most 2^32 - 1 packets of at
/// most 65535 bytes, reads back as the same header and packets.
pub proof fn lemma_yip_file_roundtrip(h: WireHeader, packets: Seq<Seq<u8>>)
    requires
        h.version >= 3,
        encode_utf8(h.filename@).len() <= 255,
        packets.len() <= u32::MAX,
        forall|k: int| 0 <= k < packets.len() ==> #[trigger] packets[k].len() <= 0xffff,
    ensures
        spec_parse_yip_file(yip_file_bytes(h@, packets)) == Some((h@, packets)),
{
    let file = yip_file_bytes(h@, packets);
    let hb = header_bytes(h@);
    let cb = container_bytes(packets);
    crate::config::lemma_wire_header_roundtrip(h);
    crate::opus::lemma_container_roundtrip(packets);
    assert(hb.len() == encode_utf8(h.filename@).len() + 10);
    assert(cb.len() >= 4);
    assert(file.len() >= 12);
    assert(file.subrange(0, 3) =~= yip_tag());
    let tail = file.subrange(4, file.len() as int);
    assert(tail =~= hb + cb);
    assert(hb + cb == hb + cb);
    // The header parses from the front of header + container.
    crate::config::lemma_parse_header_prefix(hb, cb);
    assert(file.subrange(4 + hb.len() as int, file.len() as int) =~= cb);
}

} // verus!
