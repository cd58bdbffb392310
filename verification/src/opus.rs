//! The packet container and sample-rate rules of the Opus layer.
//!
//! Container format: `[num_packets: u32 LE]`, then for each packet
//! `[len: u16 LE] [data...]`. Encoding and decoding audio happen around the
//! library.

use vstd::prelude::*;

use crate::config::{from_le16, le16, Config};
use crate::framing::{from_le32, le32};

verus! {

/// Errors of the Opus layer.
#[derive(Debug)]
pub enum OpusError {
    /// The encoder failed; the message says why.
    Encoder(String),
    /// The decoder failed; the message says why.
    Decoder(String),
    /// Opus does not run at this sample rate.
    BadSampleRate(u32),
}

/// The sample rates Opus runs at.
pub open spec fn opus_rate(hz: u32) -> bool {
    hz == 48000 || hz == 24000 || hz == 16000 || hz == 12000 || hz == 8000
}

/// The configured sample rate when Opus supports it.
pub fn sample_rate(config: &Config) -> (r: Result<u32, OpusError>)
    ensures
        opus_rate(config.sample_rate) ==> r == Ok::<u32, OpusError>(config.sample_rate),
        !opus_rate(config.sample_rate) ==> r == Err::<u32, OpusError>(OpusError::BadSampleRate(config.sample_rate)),
{
    match config.sample_rate {
        48000 | 24000 | 16000 | 12000 | 8000 => Ok(config.sample_rate),
        other => Err(OpusError::BadSampleRate(other)),
    }
}

/// The packet records of a container: each packet's length (mod 2^16) and bytes.
pub open spec fn packet_records(packets: Seq<Seq<u8>>) -> Seq<u8>
    decreases packets.len(),
{
    if packets.len() == 0 {
        Seq::empty()
    } else {
        packet_records(packets.drop_last()) + le16(packets.last().len() as u16) + packets.last()
    }
}

/// The whole container: the packet count (mod 2^32), then the records.
pub open spec fn container_bytes(packets: Seq<Seq<u8>>) -> Seq<u8> {
    le32(packets.len() as u32) + packet_records(packets)
}

/// The state after reading `i` packet records from `data`: the offset of the
/// next record and the packets read, or `None` when a record ran past the end.
pub open spec fn read_records(data: Seq<u8>, i: nat) -> Option<(int, Seq<Seq<u8>>)>
    decreases i,
{
    if i == 0 {
        Some((4, Seq::empty()))
    } else {
        match read_records(data, (i - 1) as nat) {
            None => None,
            Some((off, ps)) => {
                if off + 2 > data.len() {
                    None
                } else {
                    let len = from_le16(data[off], data[off + 1]) as int;
                    if off + 2 + len > data.len() {
                        None
                    } else {
                        Some((off + 2 + len, ps.push(data.subrange(off + 2, off + 2 + len))))
                    }
                }
            },
        }
    }
}

/// The packets a container holds, or `None` when it is cut short.
pub open spec fn parse_container(data: Seq<u8>) -> Option<Seq<Seq<u8>>> {
    if data.len() < 4 {
        None
    } else {
        match read_records(data, from_le32(data.subrange(0, 4)) as nat) {
            Some((_, ps)) => Some(ps),
            None => None,
        }
    }
}

/// Serialize Opus packets into the container format.
pub fn packets_to_bytes(packets: &[Vec<u8>]) -> (r: Vec<u8>)
    ensures
        r@ == container_bytes(packets@.map_values(|p: Vec<u8>| p@)),
{
    let ghost ps = packets@.map_values(|p: Vec<u8>| p@);
    let mut out: Vec<u8> = Vec::new();
    crate::framing::append_le32(&mut out, packets.len() as u32);
    let mut i: usize = 0;
    while i < packets.len()
        invariant
            i <= packets@.len(),
            ps == packets@.map_values(|p: Vec<u8>| p@),
            out@ == le32(packets@.len() as u32) + packet_records(ps.subrange(0, i as int)),
        decreases packets@.len() - i,
    {
        let packet = &packets[i];
        let l = packet.len() as u16;
        out.push((l % 256) as u8);
        out.push((l / 256) as u8);
        crate::framing::append_bytes(&mut out, packet.as_slice());
        proof {
            let pre = ps.subrange(0, i as int);
            let next = ps.subrange(0, i + 1);
            assert(next.drop_last() =~= pre);
            assert(next.last() == packet@);
            assert(out@ =~= le32(packets@.len() as u32) + packet_records(next));
        }
        i += 1;
    }
    assert(ps.subrange(0, packets@.len() as int) =~= ps);
    out
}

/// Deserialize Opus packets from the container format; `None` when the data is
/// shorter than the count and lengths it declares. Bytes after the last
/// declared packet are ignored.
pub fn bytes_to_packets(data: &[u8]) -> (r: Option<Vec<Vec<u8>>>)
    ensures
        match r {
            Some(v) => parse_container(data@) == Some(v@.map_values(|p: Vec<u8>| p@)),
            None => parse_container(data@) is None,
        },
{
    if data.len() < 4 {
        return None;
    }
    let num = crate::framing::read_le32(data, 0);
    let n = data.len();
    let mut offset: usize = 4;
    let mut packets: Vec<Vec<u8>> = Vec::new();
    let mut i: u32 = 0;
    while i < num
        invariant
            n == data@.len(),
            i <= num,
            num == from_le32(data@.subrange(0, 4)),
            offset <= n,
            read_records(data@, i as nat) == Some((offset as int, packets@.map_values(|p: Vec<u8>| p@))),
        decreases num - i,
    {
        if n < 2 || offset > n - 2 {
            proof {
                assert(read_records(data@, (i + 1) as nat) is None);
                lemma_read_records_none_sticks(data@, (i + 1) as nat, num as nat);
            }
            return None;
        }
        let len = data[offset] as usize + (data[offset + 1] as usize) * 256;
        if len > n - offset - 2 {
            proof {
                assert(read_records(data@, (i + 1) as nat) is None);
                lemma_read_records_none_sticks(data@, (i + 1) as nat, num as nat);
            }
            return None;
        }
        let packet = vstd::slice::slice_to_vec(&data[offset + 2..offset + 2 + len]);
        let ghost before = packets@;
        packets.push(packet);
        proof {
            assert(packets@.map_values(|p: Vec<u8>| p@) =~= before.map_values(|p: Vec<u8>| p@).push(packet@));
        }
        offset = offset + 2 + len;
        i += 1;
    }
    Some(packets)
}

/// Once reading a record fails, reading more records fails too.
proof fn lemma_read_records_none_sticks(data: Seq<u8>, i: nat, j: nat)
    requires
        read_records(data, i) is None,
        i <= j,
    ensures
        read_records(data, j) is None,
    decreases j - i,
{
    if i < j {
        lemma_read_records_none_sticks(data, i, (j - 1) as nat);
    }
}


/// The records of a prefix of the packets are a prefix of the records of a
/// longer prefix.
proof fn lemma_records_prefix(ps: Seq<Seq<u8>>, i: int, j: int)
    requires
        0 <= i <= j <= ps.len(),
    ensures
        packet_records(ps.subrange(0, i)).len() <= packet_records(ps.subrange(0, j)).len(),
        packet_records(ps.subrange(0, j)).subrange(0, packet_records(ps.subrange(0, i)).len() as int)
            == packet_records(ps.subrange(0, i)),
    decreases j - i,
{
    if i < j {
        lemma_records_prefix(ps, i, j - 1);
        let tj = ps.subrange(0, j);
        assert(tj.drop_last() =~= ps.subrange(0, j - 1));
        let a = packet_records(ps.subrange(0, i));
        let b = packet_records(ps.subrange(0, j - 1));
        let c = packet_records(tj);
        assert(c.subrange(0, b.len() as int) =~= b);
        assert(c.subrange(0, a.len() as int) =~= b.subrange(0, a.len() as int));
    } else {
        let a = packet_records(ps.subrange(0, i));
        assert(a.subrange(0, a.len() as int) =~= a);
    }
}

/// Reading `i` records of a container reads the first `i` packets.
proof fn lemma_read_container_prefix(ps: Seq<Seq<u8>>, i: int)
    requires
        0 <= i <= ps.len(),
        forall|k: int| 0 <= k < ps.len() ==> #[trigger] ps[k].len() <= 0xffff,
    ensures
        read_records(container_bytes(ps), i as nat)
            == Some((4 + packet_records(ps.subrange(0, i)).len() as int, ps.subrange(0, i))),
    decreases i,
{
    let data = container_bytes(ps);
    if i == 0 {
        assert(ps.subrange(0, 0) =~= Seq::<Seq<u8>>::empty());
    } else {
        lemma_read_container_prefix(ps, i - 1);
        lemma_records_prefix(ps, i, ps.len() as int);
        assert(ps.subrange(0, ps.len() as int) =~= ps);
        let pre = packet_records(ps.subrange(0, i - 1));
        let ti = ps.subrange(0, i);
        assert(ti.drop_last() =~= ps.subrange(0, i - 1));
        let rec = packet_records(ti);
        let p = ps[i - 1];
        assert(rec == pre + le16(p.len() as u16) + p);
        let off = 4 + pre.len() as int;
        let pl = pre.len() as int;
        let all = packet_records(ps);
        assert(all.subrange(0, rec.len() as int) == rec);
        assert(data[off] == rec[pl]);
        assert(data[off + 1] == rec[pl + 1]);
        assert(from_le16(data[off], data[off + 1]) == p.len());
        let sub = data.subrange(off + 2, off + 2 + p.len() as int);
        assert forall|k: int| 0 <= k < p.len() implies #[trigger] sub[k] == p[k] by {
            assert(sub[k] == data[off + 2 + k]);
            assert(data[off + 2 + k] == all[pl + 2 + k]);
            assert(all[pl + 2 + k] == all.subrange(0, rec.len() as int)[pl + 2 + k]);
            assert(rec[pl + 2 + k] == p[k]);
        }
        assert(sub =~= p);
        assert(ps.subrange(0, i - 1).push(p) =~= ti);
    }
}

/// Law: a container of at most 2^32 - 1 packets of at most 65535 bytes each
/// parses back to the same packets.
pub proof fn lemma_container_roundtrip(ps: Seq<Seq<u8>>)
    requires
        ps.len() <= u32::MAX,
        forall|k: int| 0 <= k < ps.len() ==> #[trigger] ps[k].len() <= 0xffff,
    ensures
        parse_container(container_bytes(ps)) == Some(ps),
{
    let data = container_bytes(ps);
    assert(data.subrange(0, 4) =~= le32(ps.len() as u32));
    assert(from_le32(le32(ps.len() as u32)) == ps.len());
    lemma_read_container_prefix(ps, ps.len() as int);
    assert(ps.subrange(0, ps.len() as int) =~= ps);
}

/// Reading records that all lie inside `data` reads the same from `data`
/// followed by more bytes.
proof fn lemma_read_records_extend(data: Seq<u8>, more: Seq<u8>, i: nat)
    requires
        read_records(data, i) is Some,
    ensures
        read_records(data + more, i) == read_records(data, i),
        4 <= read_records(data, i).unwrap().0,
    decreases i,
{
    if i > 0 {
        assert(read_records(data, (i - 1) as nat) is Some);
        lemma_read_records_extend(data, more, (i - 1) as nat);
        let d = data + more;
        let (off, ps) = read_records(data, (i - 1) as nat).unwrap();
        let len = from_le16(data[off], data[off + 1]) as int;
        assert(d[off] == data[off] && d[off + 1] == data[off + 1]);
        assert(d.subrange(off + 2, off + 2 + len) =~= data.subrange(off + 2, off + 2 + len));
    }
}

/// Law: a container followed by any bytes still parses back to its packets,
/// under the bounds of `lemma_container_roundtrip`.
pub proof fn lemma_container_roundtrip_prefix(ps: Seq<Seq<u8>>, more: Seq<u8>)
    requires
        ps.len() <= u32::MAX,
        forall|k: int| 0 <= k < ps.len() ==> #[trigger] ps[k].len() <= 0xffff,
    ensures
        parse_container(container_bytes(ps) + more) == Some(ps),
{
    let data = container_bytes(ps);
    lemma_container_roundtrip(ps);
    let d = data + more;
    assert(d.subrange(0, 4) =~= data.subrange(0, 4));
    lemma_read_records_extend(data, more, from_le32(data.subrange(0, 4)) as nat);
}

} // verus!
