//! Bancho packet framing.
//!
//! A packet on the wire is a 7-byte header — the packet id (`u16`, little
//! endian), one compression byte, the payload length (`u32`, little endian) —
//! followed by the payload itself. A stream is a run of packets; bytes after the
//! last complete packet are kept aside untouched.

use vstd::prelude::*;

verus! {

/// Size in bytes of a packet header.
pub const HEADER_LEN: usize = 7;

/// The fixed-size header that precedes every payload.
#[derive(Clone, Copy, Debug, PartialEq, Eq)]
pub struct PacketHeader {
    pub packet_id: u16,
    pub compression: u8,
    pub length: u32,
}

/// One framed packet.
#[derive(Debug)]
pub struct Packet {
    pub header: PacketHeader,
    pub payload: Vec<u8>,
}

/// A packet as a mathematical value.
pub struct PacketModel {
    pub packet_id: u16,
    pub compression: u8,
    pub length: u32,
    pub payload: Seq<u8>,
}

impl Packet {
    pub open spec fn model(&self) -> PacketModel {
        PacketModel {
            packet_id: self.header.packet_id,
            compression: self.header.compression,
            length: self.header.length,
            payload: self.payload@,
        }
    }
}

/// The models of a list of packets.
pub open spec fn models(ps: Seq<Packet>) -> Seq<PacketModel> {
    ps.map_values(|p: Packet| p.model())
}

/// Little-endian `u16` stored at `s[i..i + 2]`.
pub open spec fn read_u16_le(s: Seq<u8>, i: int) -> u16 {
    (s[i] as int + s[i + 1] as int * 256) as u16
}

/// Little-endian `u32` stored at `s[i..i + 4]`.
pub open spec fn read_u32_le(s: Seq<u8>, i: int) -> u32 {
    (s[i] as int + s[i + 1] as int * 256 + s[i + 2] as int * 65536 + s[i + 3] as int
        * 16777216) as u32
}

/// The little-endian bytes of a `u16`.
pub open spec fn u16_le_bytes(v: u16) -> Seq<u8> {
    seq![(v % 256) as u8, (v / 256) as u8]
}

/// The little-endian bytes of a `u32`.
pub open spec fn u32_le_bytes(v: u32) -> Seq<u8> {
    seq![(v % 256) as u8, ((v / 256) % 256) as u8, ((v / 65536) % 256) as u8, (v / 16777216) as u8]
}

/// Whether `s` starts with a complete packet (header and whole payload).
pub open spec fn starts_with_packet(s: Seq<u8>) -> bool {
    s.len() >= HEADER_LEN && s.len() - HEADER_LEN >= read_u32_le(s, 3)
}

/// The packet at the front of `s`, where `starts_with_packet(s)`.
pub open spec fn front_packet(s: Seq<u8>) -> PacketModel {
    PacketModel {
        packet_id: read_u16_le(s, 0),
        compression: s[2],
        length: read_u32_le(s, 3),
        payload: s.subrange(HEADER_LEN as int, HEADER_LEN + read_u32_le(s, 3)),
    }
}

/// Splits a byte stream into its complete packets and the bytes left after
/// the last of them.
pub open spec fn parse_packets(s: Seq<u8>) -> (Seq<PacketModel>, Seq<u8>)
    decreases s.len(),
{
    if starts_with_packet(s) {
        let rest = parse_packets(s.skip(HEADER_LEN + read_u32_le(s, 3)));
        (seq![front_packet(s)] + rest.0, rest.1)
    } else {
        (seq![], s)
    }
}

/// The wire bytes of one packet.
pub open spec fn encode_packet(p: PacketModel) -> Seq<u8> {
    u16_le_bytes(p.packet_id) + seq![p.compression] + u32_le_bytes(p.length) + p.payload
}

/// The wire bytes of a run of packets.
pub open spec fn encode_packets(ps: Seq<PacketModel>) -> Seq<u8>
    decreases ps.len(),
{
    if ps.len() == 0 {
        seq![]
    } else {
        encode_packet(ps[0]) + encode_packets(ps.drop_first())
    }
}

/// A packet whose length field matches its payload.
pub open spec fn well_framed(p: PacketModel) -> bool {
    p.length == p.payload.len()
}

proof fn lemma_u16_bytes(v: u16)
    ensures
        (v % 256) as u8 as int + (v / 256) as u8 as int * 256 == v,
{
    assert((v % 256) as u8 as int + (v / 256) as u8 as int * 256 == v) by (bit_vector);
}

proof fn lemma_u32_bytes(v: u32)
    ensures
        (v % 256) as u8 as int + ((v / 256) % 256) as u8 as int * 256 + ((v / 65536) % 256) as u8 as int
            * 65536 + (v / 16777216) as u8 as int * 16777216 == v,
{
    assert((v % 256) as u8 as int + ((v / 256) % 256) as u8 as int * 256 + ((v / 65536)
        % 256) as u8 as int * 65536 + (v / 16777216) as u8 as int * 16777216 == v)
        by (bit_vector);
}

proof fn lemma_read_u16(b0: u8, b1: u8)
    ensures
        ((b0 as int + b1 as int * 256) as u16 % 256) as u8 == b0,
        ((b0 as int + b1 as int * 256) as u16 / 256) as u8 == b1,
{
    assert(((b0 as u16 + b1 as u16 * 256) % 256) as u8 == b0) by (bit_vector);
    assert(((b0 as u16 + b1 as u16 * 256) / 256) as u8 == b1) by (bit_vector);
}

proof fn lemma_read_u32(b0: u8, b1: u8, b2: u8, b3: u8)
    ensures
        ({
            let v = (b0 as int + b1 as int * 256 + b2 as int * 65536 + b3 as int * 16777216) as u32;
            &&& (v % 256) as u8 == b0
            &&& ((v / 256) % 256) as u8 == b1
            &&& ((v / 65536) % 256) as u8 == b2
            &&& (v / 16777216) as u8 == b3
        }),
{
    let w: u32 = (b0 as int + b1 as int * 256 + b2 as int * 65536 + b3 as int * 16777216) as u32;
    assert((w % 256) as u8 == b0) by (bit_vector)
        requires w == b0 as u32 + b1 as u32 * 256 + b2 as u32 * 65536 + b3 as u32 * 16777216;
    assert(((w / 256) % 256) as u8 == b1) by (bit_vector)
        requires w == b0 as u32 + b1 as u32 * 256 + b2 as u32 * 65536 + b3 as u32 * 16777216;
    assert(((w / 65536) % 256) as u8 == b2) by (bit_vector)
        requires w == b0 as u32 + b1 as u32 * 256 + b2 as u32 * 65536 + b3 as u32 * 16777216;
    assert((w / 16777216) as u8 == b3) by (bit_vector)
        requires w == b0 as u32 + b1 as u32 * 256 + b2 as u32 * 65536 + b3 as u32 * 16777216;
}

/// Reading the header fields back from an encoded packet gives the fields that
/// were written.
proof fn lemma_decode_encoded_packet(p: PacketModel, tail: Seq<u8>)
    requires
        well_framed(p),
    ensures
        starts_with_packet(encode_packet(p) + tail),
        front_packet(encode_packet(p) + tail) == p,
        (encode_packet(p) + tail).skip(HEADER_LEN + p.length) == tail,
{
    let s = encode_packet(p) + tail;
    lemma_u16_bytes(p.packet_id);
    lemma_u32_bytes(p.length);
    assert(read_u16_le(s, 0) == p.packet_id);
    assert(read_u32_le(s, 3) == p.length);
    assert(s.subrange(HEADER_LEN as int, HEADER_LEN + p.length) =~= p.payload);
    assert(s.skip(HEADER_LEN + p.length) =~= tail);
}

/// Encoding the packet at the front of a stream gives back the stream's first
/// bytes.
proof fn lemma_encode_front_packet(s: Seq<u8>)
    requires
        starts_with_packet(s),
    ensures
        encode_packet(front_packet(s)) + s.skip(HEADER_LEN + read_u32_le(s, 3)) == s,
        well_framed(front_packet(s)),
{
    let p = front_packet(s);
    lemma_read_u16(s[0], s[1]);
    lemma_read_u32(s[3], s[4], s[5], s[6]);
    assert(encode_packet(p) + s.skip(HEADER_LEN + read_u32_le(s, 3)) =~= s);
}

/// Framing loses nothing: the packets found in a stream, encoded again and
/// followed by the unparsed tail, give back the stream byte for byte; and every
/// packet found carries a length field equal to its payload's length.
pub proof fn law_parse_encode_round_trip(s: Seq<u8>)
    ensures
        encode_packets(parse_packets(s).0) + parse_packets(s).1 == s,
        forall|i: int|
            0 <= i < parse_packets(s).0.len() ==> well_framed(#[trigger] parse_packets(s).0[i]),
    decreases s.len(),
{
    if starts_with_packet(s) {
        let n = HEADER_LEN + read_u32_le(s, 3);
        law_parse_encode_round_trip(s.skip(n));
        lemma_encode_front_packet(s);
        let ps = parse_packets(s).0;
        assert(ps.drop_first() =~= parse_packets(s.skip(n)).0);
        assert(encode_packets(ps) + parse_packets(s).1 =~= s);
        assert forall|i: int| 0 <= i < ps.len() implies well_framed(#[trigger] ps[i]) by {
            if i > 0 {
                assert(ps[i] == parse_packets(s.skip(n)).0[i - 1]);
            }
        }
    }
}

/// Packets whose length fields match their payloads come back unchanged when
/// their encoding, followed by any bytes that hold no complete packet, is
/// parsed again; those bytes come back as the unparsed tail.
pub proof fn law_encode_parse_round_trip(ps: Seq<PacketModel>, tail: Seq<u8>)
    requires
        forall|i: int| 0 <= i < ps.len() ==> well_framed(#[trigger] ps[i]),
        !starts_with_packet(tail),
    ensures
        parse_packets(encode_packets(ps) + tail) == (ps, tail),
    decreases ps.len(),
{
    if ps.len() == 0 {
        assert(encode_packets(ps) + tail =~= tail);
    } else {
        let rest = ps.drop_first();
        assert forall|i: int| 0 <= i < rest.len() implies well_framed(#[trigger] rest[i]) by {
            assert(rest[i] == ps[i + 1]);
        }
        law_encode_parse_round_trip(rest, tail);
        let s = encode_packets(ps) + tail;
        assert(s =~= encode_packet(ps[0]) + (encode_packets(rest) + tail));
        lemma_decode_encoded_packet(ps[0], encode_packets(rest) + tail);
        assert(parse_packets(s).0 =~= ps);
    }
}

/// The bytes left after the last complete packet never start a packet.
pub proof fn lemma_tail_holds_no_packet(s: Seq<u8>)
    ensures
        !starts_with_packet(parse_packets(s).1),
    decreases s.len(),
{
    if starts_with_packet(s) {
        lemma_tail_holds_no_packet(s.skip(HEADER_LEN + read_u32_le(s, 3)));
    }
}

/// Encoding a concatenation concatenates the encodings.
pub proof fn lemma_encode_packets_concat(a: Seq<PacketModel>, b: Seq<PacketModel>)
    ensures
        encode_packets(a + b) == encode_packets(a) + encode_packets(b),
    decreases a.len(),
{
    if a.len() == 0 {
        assert(a + b =~= b);
        assert(encode_packets(a) + encode_packets(b) =~= encode_packets(b));
    } else {
        lemma_encode_packets_concat(a.drop_first(), b);
        assert((a + b).drop_first() =~= a.drop_first() + b);
        assert((a + b)[0] == a[0]);
        assert(encode_packets(a + b) =~= encode_packets(a) + encode_packets(b));
    }
}

/// Encoding one more packet appends its bytes.
pub proof fn lemma_encode_packets_push(ps: Seq<PacketModel>, p: PacketModel)
    ensures
        encode_packets(ps.push(p)) == encode_packets(ps) + encode_packet(p),
    decreases ps.len(),
{
    if ps.len() == 0 {
        assert(ps.push(p).drop_first() =~= Seq::<PacketModel>::empty());
        assert(encode_packets(ps.push(p).drop_first()) == Seq::<u8>::empty());
        assert(ps.push(p)[0] == p);
        assert(encode_packets(ps.push(p)) =~= encode_packets(ps) + encode_packet(p));
    } else {
        lemma_encode_packets_push(ps.drop_first(), p);
        assert(ps.push(p).drop_first() =~= ps.drop_first().push(p));
        assert(ps.push(p)[0] == ps[0]);
        assert(encode_packets(ps.push(p)) == encode_packet(ps[0]) + (encode_packets(ps.drop_first())
            + encode_packet(p)));
        assert(encode_packets(ps.push(p)) =~= encode_packets(ps) + encode_packet(p));
    }
}

/// Appends `src[from..to]` to `out`.
pub(crate) fn extend_with_range(out: &mut Vec<u8>, src: &[u8], from: usize, to: usize)
    requires
        from <= to <= src@.len(),
    ensures
        final(out)@ == old(out)@ + src@.subrange(from as int, to as int),
{
    let mut i = from;
    while i < to
        invariant
            from <= i <= to <= src@.len(),
            out@ == old(out)@ + src@.subrange(from as int, i as int),
        decreases to - i,
    {
        out.push(src[i]);
        i = i + 1;
        assert(out@ =~= old(out)@ + src@.subrange(from as int, i as int));
    }
}

impl Packet {
    /// Serialises the packet: header fields as they stand, then the payload.
    pub fn to_bytes(&self) -> (r: Vec<u8>)
        ensures
            r@ == encode_packet(self.model()),
    {
        let id = self.header.packet_id;
        let len = self.header.length;
        let mut out: Vec<u8> = Vec::new();
        out.push((id % 256) as u8);
        out.push((id / 256) as u8);
        out.push(self.header.compression);
        out.push((len % 256) as u8);
        out.push(((len / 256) % 256) as u8);
        out.push(((len / 65536) % 256) as u8);
        out.push((len / 16777216) as u8);
        let ghost head = out@;
        extend_with_range(&mut out, self.payload.as_slice(), 0, self.payload.len());
        assert(self.payload@.subrange(0, self.payload@.len() as int) =~= self.payload@);
        assert(out@ =~= encode_packet(self.model()));
        out
    }

    /// Splits a byte stream into its complete packets and the bytes that follow
    /// the last of them.
    pub fn parse_stream(data: &[u8]) -> (r: (Vec<Packet>, Vec<u8>))
        ensures
            models(r.0@) == parse_packets(data@).0,
            r.1@ == parse_packets(data@).1,
    {
        let mut packets: Vec<Packet> = Vec::new();
        let mut off: usize = 0;
        let n = data.len();
        assert(data@.skip(0) =~= data@);
        assert(models(packets@) + parse_packets(data@).0 =~= parse_packets(data@).0);
        loop
            invariant
                n == data@.len(),
                off <= n,
                parse_packets(data@).0 == models(packets@) + parse_packets(data@.skip(off as int)).0,
                parse_packets(data@).1 == parse_packets(data@.skip(off as int)).1,
            ensures
                off <= n,
                parse_packets(data@).0 == models(packets@) + parse_packets(data@.skip(off as int)).0,
                parse_packets(data@).1 == parse_packets(data@.skip(off as int)).1,
                !starts_with_packet(data@.skip(off as int)),
            decreases n - off,
        {
            let ghost s = data@.skip(off as int);
            if n - off < HEADER_LEN {
                break;
            }
            let len: u32 = data[off + 3] as u32 + data[off + 4] as u32 * 256 + data[off + 5] as u32
                * 65536 + data[off + 6] as u32 * 16777216;
            assert(len == read_u32_le(s, 3));
            if ((n - off - HEADER_LEN) as u64) < (len as u64) {
                break;
            }
            let id: u16 = data[off] as u16 + data[off + 1] as u16 * 256;
            assert(id == read_u16_le(s, 0));
            let start = off + HEADER_LEN;
            let end = start + len as usize;
            let mut payload: Vec<u8> = Vec::new();
            extend_with_range(&mut payload, data, start, end);
            let p = Packet {
                header: PacketHeader { packet_id: id, compression: data[off + 2], length: len },
                payload,
            };
            assert(p.model() == front_packet(s)) by {
                assert(p.payload@ =~= s.subrange(HEADER_LEN as int, HEADER_LEN + read_u32_le(s, 3)));
            }
            let ghost old_packets = packets@;
            packets.push(p);
            off = end;
            assert(s.skip(HEADER_LEN + read_u32_le(s, 3)) =~= data@.skip(off as int));
            assert(models(packets@) =~= models(old_packets) + seq![front_packet(s)]);
            assert(parse_packets(data@).0 =~= models(packets@) + parse_packets(data@.skip(off as int)).0);
        }
        let mut rest: Vec<u8> = Vec::new();
        extend_with_range(&mut rest, data, off, n);
        assert(rest@ =~= data@.skip(off as int));
        assert(parse_packets(data@).0 =~= models(packets@));
        (packets, rest)
    }
}

} // verus!
