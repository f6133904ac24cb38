//! Granting the supporter privilege in Bancho responses.
//!
//! The server tells the client its privileges in a `UserPrivileges` packet
//! whose payload is a little-endian 32-bit flag set. Setting the supporter
//! flag there unlocks supporter-only client features such as osu!direct.

use vstd::prelude::*;
use crate::byte_buffer::{bytes_content, bytes_as_slice, bytes_from_vec};
use crate::packet::{
    Packet, PacketModel, models, parse_packets, encode_packets, extend_with_range, well_framed,
    lemma_encode_packets_push, lemma_tail_holds_no_packet, law_parse_encode_round_trip,
    law_encode_parse_round_trip,
};

verus! {

/// Id of the server packet that carries the user's privileges.
pub const USER_PRIVILEGES_PACKET_ID: u16 = 71;

/// The supporter flag in the lowest byte of the privilege set.
pub const SUPPORTER_PRIVILEGE: u8 = 4;

/// Whether a packet is a `UserPrivileges` packet.
pub open spec fn is_privileges_packet(pk: PacketModel) -> bool {
    pk.packet_id == USER_PRIVILEGES_PACKET_ID
}

/// A `UserPrivileges` packet with the supporter flag set; a payload too
/// short to hold the 32-bit flag set is left alone.
pub open spec fn with_supporter(pk: PacketModel) -> PacketModel {
    if pk.payload.len() >= 4 {
        PacketModel { payload: pk.payload.update(0, pk.payload[0] | SUPPORTER_PRIVILEGE), ..pk }
    } else {
        pk
    }
}

/// Every `UserPrivileges` packet given the supporter flag; other packets kept.
pub open spec fn inject_packets(ps: Seq<PacketModel>) -> Seq<PacketModel> {
    ps.map_values(
        |pk: PacketModel|
            if is_privileges_packet(pk) {
                with_supporter(pk)
            } else {
                pk
            },
    )
}

/// Whether some packet is a `UserPrivileges` packet.
pub open spec fn has_privileges_packet(ps: Seq<PacketModel>) -> bool {
    exists|i: int| 0 <= i < ps.len() && is_privileges_packet(#[trigger] ps[i])
}

/// A response body with the supporter flag granted: unchanged when it holds
/// no `UserPrivileges` packet; otherwise its packets, modified, followed by
/// the bytes after the last complete packet.
pub open spec fn inject_supporter_stream(body: Seq<u8>) -> Seq<u8> {
    let parsed = parse_packets(body);
    if has_privileges_packet(parsed.0) {
        encode_packets(inject_packets(parsed.0)) + parsed.1
    } else {
        body
    }
}

/// Granting the supporter flag keeps the stream's framing: parsing the result
/// gives the same packets, with only the `UserPrivileges` ones changed, and
/// the same unparsed tail; no packet changes its length.
pub proof fn law_injection_keeps_framing(body: Seq<u8>)
    ensures
        parse_packets(inject_supporter_stream(body)) == (
            inject_packets(parse_packets(body).0),
            parse_packets(body).1,
        ),
        forall|i: int|
            0 <= i < parse_packets(body).0.len() ==> (#[trigger] inject_packets(
                parse_packets(body).0,
            )[i]).payload.len() == parse_packets(body).0[i].payload.len(),
{
    let ps = parse_packets(body).0;
    let tail = parse_packets(body).1;
    let qs = inject_packets(ps);
    law_parse_encode_round_trip(body);
    lemma_tail_holds_no_packet(body);
    assert forall|i: int| 0 <= i < qs.len() implies well_framed(#[trigger] qs[i]) by {
        assert(well_framed(ps[i]));
    }
    if has_privileges_packet(ps) {
        law_encode_parse_round_trip(qs, tail);
    } else {
        assert forall|i: int| 0 <= i < ps.len() implies #[trigger] qs[i] == ps[i] by {
            assert(!is_privileges_packet(ps[i]));
        }
        assert(qs =~= ps);
    }
}

proof fn lemma_or_supporter_bits(b: u8)
    ensures
        (b | SUPPORTER_PRIVILEGE) & 4u8 == 4u8,
        (b | SUPPORTER_PRIVILEGE) & 0xfbu8 == b & 0xfbu8,
        (b | SUPPORTER_PRIVILEGE) | SUPPORTER_PRIVILEGE == b | SUPPORTER_PRIVILEGE,
{
    assert((b | 4u8) & 4u8 == 4u8) by (bit_vector);
    assert((b | 4u8) & 0xfbu8 == b & 0xfbu8) by (bit_vector);
    assert((b | 4u8) | 4u8 == b | 4u8) by (bit_vector);
}

/// What injection does to each packet: every `UserPrivileges` packet with a
/// payload of at least four bytes comes out with bit `0x04` set in its first
/// payload byte, every other bit of that byte kept, and every other payload
/// byte kept; every other packet comes out as it went in. Ids, compression
/// bytes and length fields are kept throughout.
pub proof fn law_injection_sets_supporter_bit(body: Seq<u8>)
    ensures
        ({
            let ps = parse_packets(body).0;
            let qs = parse_packets(inject_supporter_stream(body)).0;
            &&& qs.len() == ps.len()
            &&& parse_packets(inject_supporter_stream(body)).1 == parse_packets(body).1
            &&& forall|i: int|
                0 <= i < ps.len() ==> {
                    &&& (#[trigger] qs[i]).packet_id == ps[i].packet_id
                    &&& qs[i].compression == ps[i].compression
                    &&& qs[i].length == ps[i].length
                    &&& qs[i].payload.len() == ps[i].payload.len()
                    &&& if ps[i].packet_id == 71 && ps[i].payload.len() >= 4 {
                        &&& qs[i].payload[0] & 4u8 == 4u8
                        &&& qs[i].payload[0] & 0xfbu8 == ps[i].payload[0] & 0xfbu8
                        &&& forall|j: int|
                            1 <= j < ps[i].payload.len() ==> #[trigger] qs[i].payload[j]
                                == ps[i].payload[j]
                    } else {
                        qs[i] == ps[i]
                    }
                }
        }),
{
    law_injection_keeps_framing(body);
    let ps = parse_packets(body).0;
    let qs = parse_packets(inject_supporter_stream(body)).0;
    assert forall|i: int| 0 <= i < ps.len() implies ({
        &&& (#[trigger] qs[i]).packet_id == ps[i].packet_id
        &&& qs[i].compression == ps[i].compression
        &&& qs[i].length == ps[i].length
        &&& qs[i].payload.len() == ps[i].payload.len()
        &&& if ps[i].packet_id == 71 && ps[i].payload.len() >= 4 {
            &&& qs[i].payload[0] & 4u8 == 4u8
            &&& qs[i].payload[0] & 0xfbu8 == ps[i].payload[0] & 0xfbu8
            &&& forall|j: int|
                1 <= j < ps[i].payload.len() ==> #[trigger] qs[i].payload[j] == ps[i].payload[j]
        } else {
            qs[i] == ps[i]
        }
    }) by {
        assert(qs[i] == inject_packets(ps)[i]);
        if ps[i].payload.len() >= 4 {
            lemma_or_supporter_bits(ps[i].payload[0]);
        }
    }
}

/// Injecting twice gives the same body as injecting once.
pub proof fn law_injection_is_idempotent(body: Seq<u8>)
    ensures
        inject_supporter_stream(inject_supporter_stream(body)) == inject_supporter_stream(body),
{
    let ps = parse_packets(body).0;
    let tail = parse_packets(body).1;
    let once = inject_supporter_stream(body);
    law_injection_keeps_framing(body);
    let qs = inject_packets(ps);
    assert(parse_packets(once) == (qs, tail));
    if has_privileges_packet(ps) {
        let w = choose|i: int| 0 <= i < ps.len() && is_privileges_packet(#[trigger] ps[i]);
        assert(is_privileges_packet(qs[w]));
        assert forall|i: int| 0 <= i < qs.len() implies #[trigger] inject_packets(qs)[i] == qs[i] by {
            if is_privileges_packet(ps[i]) && ps[i].payload.len() >= 4 {
                lemma_or_supporter_bits(ps[i].payload[0]);
                assert(qs[i].payload.update(0, qs[i].payload[0] | SUPPORTER_PRIVILEGE)
                    =~= qs[i].payload);
            }
        }
        assert(inject_packets(qs) =~= qs);
    } else {
        assert(once == body);
    }
}

/// Sets the supporter flag in a `UserPrivileges` packet.
pub fn inject_supporter_privileges(packet: &mut Packet)
    ensures
        final(packet).model() == with_supporter(old(packet).model()),
{
    if packet.payload.len() >= 4 {
        let flags = packet.payload[0] | SUPPORTER_PRIVILEGE;
        packet.payload.set(0, flags);
    }
}

/// Grants the supporter privilege in every `UserPrivileges` packet of a
/// Bancho response body.
pub fn inject_supporter_into_bancho_response(body: bytes::Bytes) -> (r: bytes::Bytes)
    ensures
        bytes_content(r) == inject_supporter_stream(bytes_content(body)),
{
    let data = bytes_as_slice(&body);
    let (packets, remaining) = Packet::parse_stream(data);
    let ghost ps = models(packets@);
    let mut modified = false;
    let mut out: Vec<u8> = Vec::new();
    let mut k: usize = 0;
    while k < packets.len()
        invariant
            k <= packets@.len(),
            ps == models(packets@),
            out@ == encode_packets(inject_packets(ps.take(k as int))),
            modified == has_privileges_packet(ps.take(k as int)),
        decreases packets@.len() - k,
    {
        let pk = &packets[k];
        let ghost pm = ps[k as int];
        assert(pm == pk.model());
        let mut payload: Vec<u8> = Vec::new();
        extend_with_range(&mut payload, pk.payload.as_slice(), 0, pk.payload.len());
        assert(payload@ =~= pm.payload);
        let mut np = Packet { header: pk.header, payload };
        let is_privileges = np.header.packet_id == USER_PRIVILEGES_PACKET_ID;
        if is_privileges {
            inject_supporter_privileges(&mut np);
        }
        let ghost im = if is_privileges_packet(pm) {
            with_supporter(pm)
        } else {
            pm
        };
        assert(np.model() == im);
        let encoded = np.to_bytes();
        extend_with_range(&mut out, encoded.as_slice(), 0, encoded.len());
        proof {
            assert(encoded@.subrange(0, encoded@.len() as int) =~= encoded@);
            assert(ps.take(k + 1) =~= ps.take(k as int).push(pm));
            assert(inject_packets(ps.take(k + 1)) =~= inject_packets(ps.take(k as int)).push(im));
            lemma_encode_packets_push(inject_packets(ps.take(k as int)), im);
            if is_privileges {
                assert(ps.take(k + 1)[k as int] == pm);
            } else if modified {
                let w = choose|i: int|
                    0 <= i < ps.take(k as int).len() && is_privileges_packet(
                        #[trigger] ps.take(k as int)[i],
                    );
                assert(ps.take(k + 1)[w] == ps.take(k as int)[w]);
            } else {
                assert forall|i: int| 0 <= i < ps.take(k + 1).len() implies !is_privileges_packet(
                    #[trigger] ps.take(k + 1)[i],
                ) by {
                    if i < k {
                        assert(ps.take(k + 1)[i] == ps.take(k as int)[i]);
                    }
                }
            }
        }
        modified = modified || is_privileges;
        k = k + 1;
    }
    proof {
        assert(ps.take(packets@.len() as int) =~= ps);
    }
    if !modified {
        return body;
    }
    extend_with_range(&mut out, remaining.as_slice(), 0, remaining.len());
    assert(remaining@.subrange(0, remaining@.len() as int) =~= remaining@);
    bytes_from_vec(out)
}

} // verus!
