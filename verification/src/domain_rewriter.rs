//! Rewriting host names inside Bancho packet streams.
//!
//! Requests from the client name the local hosts (`osu.localhost`, ...); the
//! upstream server expects its own names (`osu.<server>`, ...). Bodies sent
//! upstream are rewritten with the forward table, bodies coming back with the
//! backward table, which swaps each pair.

use vstd::prelude::*;
use vstd::utf8::encode_utf8;
use crate::byte_buffer::{bytes_content, bytes_as_slice, bytes_from_vec};
use crate::packet::{
    Packet, PacketHeader, PacketModel, models, parse_packets, encode_packets,
    well_framed, extend_with_range, lemma_encode_packets_push, lemma_tail_holds_no_packet,
    law_parse_encode_round_trip, law_encode_parse_round_trip, lemma_encode_packets_concat,
    starts_with_packet,
};
use crate::payload::{
    STRING_MARKER, first_match, length_byte_index, adjusted_length, patch_length, replace_at,
    replace_from, rewrite_payload, payload_touched, find_from, splice_at, lemma_first_match_bounds,
    lemma_length_byte_index_bounds, lemma_replace_at_len, lemma_adjusted_length,
};
use crate::upstream::{
    mapping_table, pair_views, upstream_mappings, normalize_upstream_server, normalized_upstream,
};

verus! {

/// The host pairs rewritten on the way upstream: those of `server`, followed,
/// unless `server` is the official `ppy.sh`, by those of `ppy.sh`.
pub open spec fn forward_table(server: Seq<char>) -> Seq<(Seq<char>, Seq<char>)> {
    if server == "ppy.sh"@ {
        mapping_table(server)
    } else {
        mapping_table(server) + mapping_table("ppy.sh"@)
    }
}

/// Each pair turned around.
pub open spec fn swapped(m: Seq<(Seq<char>, Seq<char>)>) -> Seq<(Seq<char>, Seq<char>)> {
    m.map_values(|p: (Seq<char>, Seq<char>)| (p.1, p.0))
}

/// The UTF-8 bytes of each pair.
pub open spec fn byte_table(m: Seq<(Seq<char>, Seq<char>)>) -> Seq<(Seq<u8>, Seq<u8>)> {
    m.map_values(|p: (Seq<char>, Seq<char>)| (encode_utf8(p.0), encode_utf8(p.1)))
}

/// Whether every pair has a non-empty first component.
pub open spec fn sources_non_empty(m: Seq<(Seq<char>, Seq<char>)>) -> bool {
    forall|i: int| 0 <= i < m.len() ==> (#[trigger] m[i]).0.len() > 0
}

/// A packet after rewriting: if some mapping occurred in its payload, the
/// payload is rewritten and the length field set to the new length (kept to
/// 32 bits); otherwise the packet stays as it is.
pub open spec fn rewrite_packet(pk: PacketModel, maps: Seq<(Seq<u8>, Seq<u8>)>) -> PacketModel {
    if payload_touched(pk.payload, maps) {
        PacketModel {
            packet_id: pk.packet_id,
            compression: pk.compression,
            length: rewrite_payload(pk.payload, maps).len() as u32,
            payload: rewrite_payload(pk.payload, maps),
        }
    } else {
        pk
    }
}

/// `rewrite_packet` applied to every packet.
pub open spec fn rewrite_packets(ps: Seq<PacketModel>, maps: Seq<(Seq<u8>, Seq<u8>)>) -> Seq<PacketModel> {
    ps.map_values(|pk: PacketModel| rewrite_packet(pk, maps))
}

/// Whether some mapping occurs in the payload of some packet.
pub open spec fn any_touched(ps: Seq<PacketModel>, maps: Seq<(Seq<u8>, Seq<u8>)>) -> bool {
    exists|i: int| 0 <= i < ps.len() && payload_touched(#[trigger] ps[i].payload, maps)
}

/// A body after rewriting: unchanged when no packet holds a mapping;
/// otherwise the rewritten packets, followed by the bytes after the last
/// complete packet.
pub open spec fn rewrite_stream(body: Seq<u8>, maps: Seq<(Seq<u8>, Seq<u8>)>) -> Seq<u8> {
    let parsed = parse_packets(body);
    if any_touched(parsed.0, maps) {
        encode_packets(rewrite_packets(parsed.0, maps)) + parsed.1
    } else {
        body
    }
}

/// A non-empty string has a non-empty UTF-8 encoding.
pub proof fn lemma_encode_utf8_non_empty(s: Seq<char>)
    requires
        s.len() > 0,
    ensures
        encode_utf8(s).len() > 0,
{
    assert(encode_utf8(s) == vstd::utf8::encode_scalar(s[0] as u32) + encode_utf8(s.drop_first()));
}

/// A payload in which no mapping occurs is left as it is.
pub proof fn lemma_untouched_payload(p: Seq<u8>, maps: Seq<(Seq<u8>, Seq<u8>)>)
    requires
        !payload_touched(p, maps),
    ensures
        rewrite_payload(p, maps) == p,
    decreases maps.len(),
{
    if maps.len() > 0 {
        lemma_untouched_payload(p, maps.drop_last());
    }
}

/// A body in which no packet's payload holds any of the names comes back
/// byte for byte.
pub proof fn law_rewrite_without_match_is_identity(body: Seq<u8>, maps: Seq<(Seq<u8>, Seq<u8>)>)
    requires
        forall|i: int|
            0 <= i < parse_packets(body).0.len() ==> !payload_touched(
                #[trigger] parse_packets(body).0[i].payload,
                maps,
            ),
    ensures
        rewrite_stream(body, maps) == body,
{
}

/// Rewriting keeps the stream well framed: parsing the rewritten body gives
/// exactly the rewritten packets — same ids and compression bytes, length
/// fields equal to the new payload lengths — followed by the same unparsed
/// tail as before. This holds whenever every rewritten payload still fits a
/// 32-bit length field.
pub proof fn law_rewrite_keeps_framing(body: Seq<u8>, maps: Seq<(Seq<u8>, Seq<u8>)>)
    requires
        forall|i: int|
            0 <= i < parse_packets(body).0.len() ==> rewrite_payload(
                #[trigger] parse_packets(body).0[i].payload,
                maps,
            ).len() <= u32::MAX,
    ensures
        parse_packets(rewrite_stream(body, maps)) == (
            rewrite_packets(parse_packets(body).0, maps),
            parse_packets(body).1,
        ),
{
    let ps = parse_packets(body).0;
    let tail = parse_packets(body).1;
    let rs = rewrite_packets(ps, maps);
    law_parse_encode_round_trip(body);
    lemma_tail_holds_no_packet(body);
    assert forall|i: int| 0 <= i < rs.len() implies well_framed(#[trigger] rs[i]) by {
        assert(well_framed(ps[i]));
    }
    if any_touched(ps, maps) {
        law_encode_parse_round_trip(rs, tail);
    } else {
        assert forall|i: int| 0 <= i < ps.len() implies #[trigger] rs[i] == ps[i] by {
            assert(!payload_touched(ps[i].payload, maps));
        }
        assert(rs =~= ps);
    }
}

/// Each packet is rewritten on its own: the `i`-th packet of the rewritten
/// body has the `i`-th input packet's id and compression byte, the whole
/// table applied to that packet's payload, and a length field equal to the
/// new payload length — whatever happened to the packets before it. The
/// unparsed tail is kept. (Where every rewritten payload fits a 32-bit
/// length field.)
pub proof fn law_rewrite_each_packet(body: Seq<u8>, maps: Seq<(Seq<u8>, Seq<u8>)>)
    requires
        forall|i: int|
            0 <= i < parse_packets(body).0.len() ==> rewrite_payload(
                #[trigger] parse_packets(body).0[i].payload,
                maps,
            ).len() <= u32::MAX,
    ensures
        ({
            let ps = parse_packets(body).0;
            let out = parse_packets(rewrite_stream(body, maps));
            &&& out.0.len() == ps.len()
            &&& out.1 == parse_packets(body).1
            &&& forall|i: int|
                0 <= i < ps.len() ==> {
                    &&& (#[trigger] out.0[i]).packet_id == ps[i].packet_id
                    &&& out.0[i].compression == ps[i].compression
                    &&& out.0[i].payload == rewrite_payload(ps[i].payload, maps)
                    &&& out.0[i].length == out.0[i].payload.len()
                }
        }),
{
    let ps = parse_packets(body).0;
    law_rewrite_keeps_framing(body, maps);
    law_parse_encode_round_trip(body);
    let out = parse_packets(rewrite_stream(body, maps));
    assert forall|i: int| 0 <= i < ps.len() implies {
        &&& (#[trigger] out.0[i]).packet_id == ps[i].packet_id
        &&& out.0[i].compression == ps[i].compression
        &&& out.0[i].payload == rewrite_payload(ps[i].payload, maps)
        &&& out.0[i].length == out.0[i].payload.len()
    } by {
        assert(out.0[i] == rewrite_packet(ps[i], maps));
        assert(well_framed(ps[i]));
        if !payload_touched(ps[i].payload, maps) {
            lemma_untouched_payload(ps[i].payload, maps);
        }
    }
}

/// A run of well-framed packets is rewritten as its encoding's pieces would
/// be: rewriting the packets of one stream followed by those of another
/// gives the two rewritten streams one after the other.
pub proof fn law_rewrite_concatenates(
    ps: Seq<PacketModel>,
    qs: Seq<PacketModel>,
    maps: Seq<(Seq<u8>, Seq<u8>)>,
)
    requires
        forall|i: int| 0 <= i < ps.len() ==> well_framed(#[trigger] ps[i]),
        forall|i: int| 0 <= i < qs.len() ==> well_framed(#[trigger] qs[i]),
    ensures
        rewrite_stream(encode_packets(ps + qs), maps) == rewrite_stream(encode_packets(ps), maps)
            + rewrite_stream(encode_packets(qs), maps),
{
    assert forall|i: int| 0 <= i < (ps + qs).len() implies well_framed(#[trigger] (ps + qs)[i]) by {
        if i < ps.len() {
            assert((ps + qs)[i] == ps[i]);
        } else {
            assert((ps + qs)[i] == qs[i - ps.len()]);
        }
    }
    lemma_rewrite_encoded(ps, maps);
    lemma_rewrite_encoded(qs, maps);
    lemma_rewrite_encoded(ps + qs, maps);
    assert(rewrite_packets(ps + qs, maps) =~= rewrite_packets(ps, maps) + rewrite_packets(qs, maps));
    lemma_encode_packets_concat(ps, qs);
    lemma_encode_packets_concat(rewrite_packets(ps, maps), rewrite_packets(qs, maps));
}

/// The rewrite of an encoded run of well-framed packets is the encoding of
/// the rewritten packets.
proof fn lemma_rewrite_encoded(ps: Seq<PacketModel>, maps: Seq<(Seq<u8>, Seq<u8>)>)
    requires
        forall|i: int| 0 <= i < ps.len() ==> well_framed(#[trigger] ps[i]),
    ensures
        rewrite_stream(encode_packets(ps), maps) == encode_packets(rewrite_packets(ps, maps)),
{
    let e = Seq::<u8>::empty();
    assert(!starts_with_packet(e));
    law_encode_parse_round_trip(ps, e);
    assert(encode_packets(ps) + e =~= encode_packets(ps));
    if !any_touched(ps, maps) {
        assert forall|i: int| 0 <= i < ps.len() implies #[trigger] rewrite_packets(ps, maps)[i]
            == ps[i] by {
            assert(!payload_touched(ps[i].payload, maps));
        }
        assert(rewrite_packets(ps, maps) =~= ps);
    }
}

/// Rewrites the host names in Bancho packet streams between the local names
/// the client uses and the names of the upstream server.
#[derive(Debug)]
pub struct DomainRewriter {
    forward: Vec<(String, String)>,
    backward: Vec<(String, String)>,
}

impl DomainRewriter {
    /// The pairs `(from, to)` applied to bodies sent upstream.
    pub closed spec fn forward_mappings(&self) -> Seq<(Seq<char>, Seq<char>)> {
        pair_views(self.forward@)
    }

    /// The pairs `(from, to)` applied to bodies coming back.
    pub closed spec fn backward_mappings(&self) -> Seq<(Seq<char>, Seq<char>)> {
        pair_views(self.backward@)
    }

    #[verifier::type_invariant]
    spec fn wf(&self) -> bool {
        &&& sources_non_empty(pair_views(self.forward@))
        &&& sources_non_empty(pair_views(self.backward@))
    }

    /// A rewriter for the upstream server as the user wrote it (see
    /// `normalize_upstream_server`).
    pub fn new(upstream_server: &str) -> (r: Self)
        ensures
            r.forward_mappings() == forward_table(normalized_upstream(upstream_server@)),
            r.backward_mappings() == swapped(forward_table(normalized_upstream(upstream_server@))),
    {
        let upstream_server = normalize_upstream_server(upstream_server);
        Self::for_server(upstream_server.as_str())
    }

    /// A rewriter for an already normalised upstream server name.
    pub fn for_server(server: &str) -> (r: Self)
        ensures
            r.forward_mappings() == forward_table(server@),
            r.backward_mappings() == swapped(forward_table(server@)),
    {
        let upstream_hosts = upstream_mappings(server);
        let mut forward: Vec<(String, String)> = Vec::new();
        let mut backward: Vec<(String, String)> = Vec::new();
        append_pairs(&mut forward, &upstream_hosts, false);
        append_pairs(&mut backward, &upstream_hosts, true);
        let official = String::from_str("ppy.sh");
        let chosen = String::from_str(server);
        let is_official = chosen == official;
        if !is_official {
            let official_hosts = upstream_mappings("ppy.sh");
            append_pairs(&mut backward, &official_hosts, true);
            append_pairs(&mut forward, &official_hosts, false);
        }
        proof {
            lemma_table_sources_non_empty(server@);
            assert(forward_table(server@) == pair_views(forward@));
            assert(swapped(forward_table(server@)) =~= pair_views(backward@));
        }
        Self { forward, backward }
    }

    /// Rewrites a request body bound for the upstream server.
    pub fn rewrite_forward(&self, body: bytes::Bytes) -> (r: bytes::Bytes)
        ensures
            bytes_content(r) == rewrite_stream(bytes_content(body), byte_table(self.forward_mappings())),
    {
        self.rewrite(body, true)
    }

    /// Rewrites a response body coming back from the upstream server.
    pub fn rewrite_backward(&self, body: bytes::Bytes) -> (r: bytes::Bytes)
        ensures
            bytes_content(r) == rewrite_stream(bytes_content(body), byte_table(self.backward_mappings())),
    {
        self.rewrite(body, false)
    }

    fn rewrite(&self, body: bytes::Bytes, is_forward: bool) -> (r: bytes::Bytes)
        ensures
            bytes_content(r) == rewrite_stream(
                bytes_content(body),
                byte_table(
                    if is_forward {
                        self.forward_mappings()
                    } else {
                        self.backward_mappings()
                    },
                ),
            ),
    {
        proof {
            use_type_invariant(self);
        }
        let mappings = if is_forward {
            &self.forward
        } else {
            &self.backward
        };
        let ghost maps = byte_table(pair_views(mappings@));
        let data = bytes_as_slice(&body);
        let (packets, remaining) = Packet::parse_stream(data);
        let ghost ps = models(packets@);
        let mut changed = false;
        let mut out: Vec<u8> = Vec::new();
        let mut k: usize = 0;
        while k < packets.len()
            invariant
                k <= packets@.len(),
                ps == models(packets@),
                sources_non_empty(pair_views(mappings@)),
                maps == byte_table(pair_views(mappings@)),
                out@ == encode_packets(rewrite_packets(ps.take(k as int), maps)),
                changed == any_touched(ps.take(k as int), maps),
            decreases packets@.len() - k,
        {
            let pk = &packets[k];
            let ghost pm = ps[k as int];
            assert(pm == pk.model());
            let mut payload: Vec<u8> = Vec::new();
            extend_with_range(&mut payload, pk.payload.as_slice(), 0, pk.payload.len());
            assert(payload@ =~= pm.payload);
            let touched = self.rewrite_payload(&mut payload, mappings);
            let header = if touched {
                PacketHeader {
                    packet_id: pk.header.packet_id,
                    compression: pk.header.compression,
                    length: payload.len() as u32,
                }
            } else {
                pk.header
            };
            proof {
                if !touched {
                    lemma_untouched_payload(pm.payload, maps);
                }
            }
            let np = Packet { header, payload };
            assert(np.model() == rewrite_packet(pm, maps));
            let encoded = np.to_bytes();
            let ghost before = out@;
            extend_with_range(&mut out, encoded.as_slice(), 0, encoded.len());
            proof {
                assert(encoded@.subrange(0, encoded@.len() as int) =~= encoded@);
                assert(ps.take(k + 1) =~= ps.take(k as int).push(pm));
                assert(rewrite_packets(ps.take(k + 1), maps) =~= rewrite_packets(
                    ps.take(k as int),
                    maps,
                ).push(rewrite_packet(pm, maps)));
                lemma_encode_packets_push(rewrite_packets(ps.take(k as int), maps), rewrite_packet(pm, maps));
                if touched {
                    assert(ps.take(k + 1)[k as int] == pm);
                } else if changed {
                    let w = choose|i: int|
                        0 <= i < ps.take(k as int).len() && payload_touched(
                            #[trigger] ps.take(k as int)[i].payload,
                            maps,
                        );
                    assert(ps.take(k + 1)[w] == ps.take(k as int)[w]);
                } else {
                    assert forall|i: int| 0 <= i < ps.take(k + 1).len() implies !payload_touched(
                        #[trigger] ps.take(k + 1)[i].payload,
                        maps,
                    ) by {
                        if i < k {
                            assert(ps.take(k + 1)[i] == ps.take(k as int)[i]);
                        }
                    }
                }
            }
            changed = changed || touched;
            k = k + 1;
        }
        proof {
            assert(ps.take(packets@.len() as int) =~= ps);
        }
        if !changed {
            return body;
        }
        extend_with_range(&mut out, remaining.as_slice(), 0, remaining.len());
        assert(remaining@.subrange(0, remaining@.len() as int) =~= remaining@);
        bytes_from_vec(out)
    }

    /// Applies every mapping, in order, to one payload. Returns whether any
    /// of them occurred.
    fn rewrite_payload(&self, payload: &mut Vec<u8>, mappings: &Vec<(String, String)>) -> (touched: bool)
        requires
            sources_non_empty(pair_views(mappings@)),
        ensures
            final(payload)@ == rewrite_payload(old(payload)@, byte_table(pair_views(mappings@))),
            touched == payload_touched(old(payload)@, byte_table(pair_views(mappings@))),
    {
        let ghost orig = payload@;
        let ghost maps = byte_table(pair_views(mappings@));
        let mut touched = false;
        let mut i: usize = 0;
        while i < mappings.len()
            invariant
                i <= mappings@.len(),
                orig == old(payload)@,
                maps == byte_table(pair_views(mappings@)),
                sources_non_empty(pair_views(mappings@)),
                payload@ == rewrite_payload(orig, maps.take(i as int)),
                touched == payload_touched(orig, maps.take(i as int)),
            decreases mappings@.len() - i,
        {
            let from = mappings[i].0.as_str().as_bytes();
            let to = mappings[i].1.as_str().as_bytes();
            proof {
                assert(pair_views(mappings@)[i as int].0.len() > 0);
                lemma_encode_utf8_non_empty(pair_views(mappings@)[i as int].0);
                assert(maps.take(i + 1).drop_last() =~= maps.take(i as int));
                assert(maps.take(i + 1).last() == maps[i as int]);
            }
            let found = self.replace_all(payload, from, to);
            touched = touched || found;
            i = i + 1;
        }
        assert(maps.take(mappings@.len() as int) =~= maps);
        touched
    }

    /// Adjusts the length byte of the string that contains position `data_pos`,
    /// as `patch_length` describes.
    fn try_patch_string_length(&self, payload: &mut [u8], data_pos: usize, old_len: usize, new_len: usize)
        requires
            data_pos <= old(payload)@.len(),
        ensures
            final(payload)@ == patch_length(old(payload)@, data_pos as int, old_len as nat, new_len as nat),
    {
        let ghost p = payload@;
        let mut i: usize = 1;
        while i < 256
            invariant
                1 <= i <= 256,
                payload@ == p,
                p == old(payload)@,
                data_pos <= p.len(),
                length_byte_index(p, data_pos as int, 1) == length_byte_index(p, data_pos as int, i as int),
            decreases 256 - i,
        {
            if data_pos < i {
                assert(length_byte_index(p, data_pos as int, i as int) is None);
                return;
            }
            if payload[data_pos - i] == STRING_MARKER {
                let len_idx = data_pos - i + 1;
                if len_idx < payload.len() {
                    let current = payload[len_idx];
                    if current as usize + 1 >= i {
                        let o = (old_len % 256) as u16;
                        let n = (new_len % 256) as u16;
                        let v = ((current as u16 + 256 - o + n) % 256) as u8;
                        proof {
                            lemma_adjusted_length(current, old_len as nat, new_len as nat);
                        }
                        assert(length_byte_index(p, data_pos as int, i as int) == Some(len_idx as int));
                        assert(v == adjusted_length(p[len_idx as int], old_len as nat, new_len as nat));
                        payload[len_idx] = v;
                        return;
                    }
                }
            }
            assert(length_byte_index(p, data_pos as int, i as int) == length_byte_index(
                p,
                data_pos as int,
                i + 1,
            ));
            i = i + 1;
        }
        assert(length_byte_index(p, data_pos as int, 256) is None);
    }

    /// Replaces every occurrence of `from` in `payload` by `to`, left to right,
    /// adjusting string length bytes on the way. Returns whether any occurrence
    /// was found.
    fn replace_all(&self, payload: &mut Vec<u8>, from: &[u8], to: &[u8]) -> (found: bool)
        requires
            from@.len() > 0,
        ensures
            final(payload)@ == replace_from(old(payload)@, from@, to@, 0),
            found == first_match(old(payload)@, from@, 0) is Some,
    {
        let ghost orig = payload@;
        let mut pos: usize = 0;
        let mut found = false;
        loop
            invariant
                from@.len() > 0,
                orig == old(payload)@,
                pos <= payload@.len(),
                replace_from(payload@, from@, to@, pos as int) == replace_from(orig, from@, to@, 0),
                found ==> first_match(orig, from@, 0) is Some,
                !found ==> payload@ == orig && pos == 0,
            ensures
                payload@ == replace_from(orig, from@, to@, 0),
                found == first_match(orig, from@, 0) is Some,
            decreases payload@.len() - pos,
        {
            match find_from(payload.as_slice(), from, pos) {
                None => {
                    assert(replace_from(payload@, from@, to@, pos as int) == payload@);
                    return found;
                },
                Some(j) => {
                    proof {
                        lemma_first_match_bounds(payload@, from@, pos as int);
                    }
                    let ghost before = payload@;
                    self.try_patch_string_length(payload.as_mut_slice(), j, from.len(), to.len());
                    proof {
                        lemma_length_byte_index_bounds(before, j as int, 1);
                        lemma_replace_at_len(before, j as int, from@, to@);
                    }
                    let next = splice_at(payload, j, from.len(), to);
                    *payload = next;
                    assert(payload@ == replace_at(before, j as int, from@, to@));
                    found = true;
                    let new_len = payload.len();
                    assert(j + to@.len() <= new_len);
                    pos = j + to.len();
                },
            }
        }
    }
}

impl Clone for DomainRewriter {
    /// A rewriter with the same tables.
    fn clone(&self) -> (r: Self)
        ensures
            r.forward_mappings() == self.forward_mappings(),
            r.backward_mappings() == self.backward_mappings(),
    {
        proof {
            use_type_invariant(self);
        }
        let mut forward: Vec<(String, String)> = Vec::new();
        let mut backward: Vec<(String, String)> = Vec::new();
        append_pairs(&mut forward, &self.forward, false);
        append_pairs(&mut backward, &self.backward, false);
        assert(pair_views(forward@) =~= pair_views(self.forward@));
        assert(pair_views(backward@) =~= pair_views(self.backward@));
        DomainRewriter { forward, backward }
    }
}

/// Appends copies of `src`'s pairs to `dst`, turned around when `swap` holds.
fn append_pairs(dst: &mut Vec<(String, String)>, src: &Vec<(String, String)>, swap: bool)
    ensures
        pair_views(final(dst)@) == pair_views(old(dst)@) + (if swap {
            swapped(pair_views(src@))
        } else {
            pair_views(src@)
        }),
{
    let ghost added = if swap {
        swapped(pair_views(src@))
    } else {
        pair_views(src@)
    };
    let mut i: usize = 0;
    while i < src.len()
        invariant
            i <= src@.len(),
            added == (if swap {
                swapped(pair_views(src@))
            } else {
                pair_views(src@)
            }),
            pair_views(dst@) == pair_views(old(dst)@) + added.take(i as int),
        decreases src@.len() - i,
    {
        let a = src[i].0.clone();
        let b = src[i].1.clone();
        let ghost before = dst@;
        if swap {
            dst.push((b, a));
        } else {
            dst.push((a, b));
        }
        assert(pair_views(dst@) =~= pair_views(before).push(added[i as int]));
        assert(added.take(i + 1) =~= added.take(i as int).push(added[i as int]));
        i = i + 1;
    }
    assert(added.take(src@.len() as int) =~= added);
}

/// Every table built from a server name has non-empty strings on both sides.
proof fn lemma_table_sources_non_empty(server: Seq<char>)
    ensures
        sources_non_empty(forward_table(server)),
        sources_non_empty(swapped(forward_table(server))),
{
    reveal_strlit("osu.localhost");
    reveal_strlit("c.localhost");
    reveal_strlit("a.localhost");
    reveal_strlit("b.localhost");
    reveal_strlit("i.localhost");
    reveal_strlit("osu.");
    reveal_strlit("c.");
    reveal_strlit("a.");
    reveal_strlit("b.");
    reveal_strlit("i.");
    let t = forward_table(server);
    assert forall|i: int| 0 <= i < t.len() implies (#[trigger] t[i]).0.len() > 0 && t[i].1.len()
        > 0 by {
        if server == "ppy.sh"@ {
        } else {
            if i >= 5 {
                assert(t[i] == mapping_table("ppy.sh"@)[i - 5]);
            }
        }
    }
    let w = swapped(t);
    assert forall|i: int| 0 <= i < w.len() implies (#[trigger] w[i]).0.len() > 0 by {
        assert(w[i].0 == t[i].1);
    }
}

} // verus!
