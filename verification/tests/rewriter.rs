use bytes::Bytes;
use osu_proxy::packet::Packet;
use osu_proxy::domain_rewriter::DomainRewriter;
use osu_proxy::upstream::{normalize_upstream_server, upstream_mappings};

fn frame(id: u16, payload: &[u8]) -> Vec<u8> {
    let mut v = vec![(id % 256) as u8, (id / 256) as u8, 0];
    v.extend_from_slice(&(payload.len() as u32).to_le_bytes());
    v.extend_from_slice(payload);
    v
}

fn osu_string(s: &str) -> Vec<u8> {
    let mut v = vec![0x0b, s.len() as u8];
    v.extend_from_slice(s.as_bytes());
    v
}

#[test]
fn normalize_strips_scheme_slashes_and_space() {
    assert_eq!(normalize_upstream_server("  https://Akatsuki.GG/  "), "akatsuki.gg");
    assert_eq!(normalize_upstream_server("http://http://ripple.moe//"), "ripple.moe");
    assert_eq!(normalize_upstream_server("/https://x.org"), "https://x.org");
}

#[test]
fn normalize_scheme_prefix_is_case_sensitive() {
    assert_eq!(normalize_upstream_server("HTTPS://Example.com"), "https://example.com");
}

#[test]
fn normalize_trims_unicode_white_space() {
    assert_eq!(normalize_upstream_server("\u{3000}ppy.sh\u{a0}"), "ppy.sh");
}

#[test]
fn normalize_lowercases_beyond_ascii() {
    assert_eq!(normalize_upstream_server("ÄÖ.example"), "äö.example");
}

#[test]
fn upstream_mappings_cover_five_hosts() {
    let m = upstream_mappings("akatsuki.gg");
    let expected = [
        ("osu.localhost", "osu.akatsuki.gg"),
        ("c.localhost", "c.akatsuki.gg"),
        ("a.localhost", "a.akatsuki.gg"),
        ("b.localhost", "b.akatsuki.gg"),
        ("i.localhost", "i.akatsuki.gg"),
    ];
    assert_eq!(m.len(), 5);
    for (got, want) in m.iter().zip(expected.iter()) {
        assert_eq!(got.0, want.0);
        assert_eq!(got.1, want.1);
    }
}

#[test]
fn forward_rewrite_replaces_host_and_fixes_lengths() {
    let r = DomainRewriter::new("https://akatsuki.gg");
    let body = frame(1, &osu_string("osu.localhost"));
    let out = r.rewrite_forward(Bytes::from(body));
    let expected = frame(1, &osu_string("osu.akatsuki.gg"));
    assert_eq!(out.to_vec(), expected);
}

#[test]
fn backward_rewrite_restores_local_host() {
    let r = DomainRewriter::new("akatsuki.gg");
    let body = frame(7, &osu_string("see https://osu.akatsuki.gg/b/1"));
    let out = r.rewrite_backward(Bytes::from(body));
    let expected = frame(7, &osu_string("see https://osu.localhost/b/1"));
    assert_eq!(out.to_vec(), expected);
}

#[test]
fn backward_rewrite_also_maps_official_hosts() {
    let r = DomainRewriter::new("akatsuki.gg");
    let body = frame(7, &osu_string("osu.ppy.sh"));
    let out = r.rewrite_backward(Bytes::from(body));
    assert_eq!(out.to_vec(), frame(7, &osu_string("osu.localhost")));
}

#[test]
fn official_server_rewrites_once() {
    let r = DomainRewriter::new("PPY.SH");
    let body = frame(1, &osu_string("osu.localhost"));
    let out = r.rewrite_forward(Bytes::from(body));
    assert_eq!(out.to_vec(), frame(1, &osu_string("osu.ppy.sh")));
}

#[test]
fn length_byte_equal_to_marker_is_taken_for_a_marker() {
    // A string of length 11 has a length byte equal to the marker 0x0b; the
    // search backwards meets it first and adjusts the byte after it, which
    // belongs to the replaced name, so the real length byte stays as it was.
    let r = DomainRewriter::new("ppy.sh");
    let body = frame(1, &osu_string("c.localhost"));
    let out = r.rewrite_forward(Bytes::from(body));
    let mut expected = vec![0x0b, 11];
    expected.extend_from_slice(b"c.ppy.sh");
    assert_eq!(out.to_vec(), frame(1, &expected));
}

#[test]
fn every_occurrence_is_replaced() {
    let r = DomainRewriter::new("ppy.sh");
    let body = frame(2, b"a.localhost|a.localhost");
    let out = r.rewrite_forward(Bytes::from(body));
    assert_eq!(out.to_vec(), frame(2, b"a.ppy.sh|a.ppy.sh"));
}

#[test]
fn body_without_names_is_returned_unchanged() {
    let r = DomainRewriter::new("akatsuki.gg");
    let mut body = frame(5, &[1, 2, 3]);
    body.extend([0xaa, 0xbb]);
    let out = r.rewrite_forward(Bytes::from(body.clone()));
    assert_eq!(out.to_vec(), body);
}

#[test]
fn trailing_partial_packet_is_kept() {
    let r = DomainRewriter::new("akatsuki.gg");
    let mut body = frame(1, b"b.localhost");
    body.extend([3, 0, 0, 50, 0]);
    let out = r.rewrite_forward(Bytes::from(body));
    let mut expected = frame(1, b"b.akatsuki.gg");
    expected.extend([3, 0, 0, 50, 0]);
    assert_eq!(out.to_vec(), expected);
}

#[test]
fn untouched_packets_keep_their_bytes() {
    let r = DomainRewriter::new("akatsuki.gg");
    let mut body = frame(9, &[0x0b, 2, b'h', b'i']);
    body.extend(frame(1, b"i.localhost"));
    let out = r.rewrite_forward(Bytes::from(body));
    let mut expected = frame(9, &[0x0b, 2, b'h', b'i']);
    expected.extend(frame(1, b"i.akatsuki.gg"));
    assert_eq!(out.to_vec(), expected);
}

#[test]
fn length_byte_of_enclosing_string_is_adjusted() {
    let r = DomainRewriter::new("ab.cd");
    // marker 3 bytes before the name, string length 5 covers it.
    let payload = vec![0x0b, 5 + 11, b'x', b'y', b'z'];
    let mut payload = payload;
    payload.extend_from_slice(b"osu.localhost");
    let out = r.rewrite_forward(Bytes::from(frame(1, &payload)));
    let mut expected = vec![0x0b, 16 - 13 + 9, b'x', b'y', b'z'];
    expected.extend_from_slice(b"osu.ab.cd");
    assert_eq!(out.to_vec(), frame(1, &expected));
}

#[test]
fn length_byte_too_small_is_not_touched() {
    let r = DomainRewriter::new("ab.cd");
    // the string after the marker is too short to reach the name.
    let mut payload = vec![0x0b, 0, b'x', b'y'];
    payload.extend_from_slice(b"c.localhost");
    let out = r.rewrite_forward(Bytes::from(frame(1, &payload)));
    let mut expected = vec![0x0b, 0, b'x', b'y'];
    expected.extend_from_slice(b"c.ab.cd");
    assert_eq!(out.to_vec(), frame(1, &expected));
}

#[test]
fn length_byte_wraps_to_one_byte() {
    let r = DomainRewriter::new("a-very-long-upstream-name.example");
    let mut payload = vec![0x0b, 250];
    payload.extend_from_slice(b"osu.localhost");
    let out = r.rewrite_forward(Bytes::from(frame(1, &payload)));
    let new_host = "osu.a-very-long-upstream-name.example";
    let mut expected = vec![0x0b, ((250 - 13 + new_host.len()) % 256) as u8];
    expected.extend_from_slice(new_host.as_bytes());
    assert_eq!(out.to_vec(), frame(1, &expected));
}

#[test]
fn empty_body_stays_empty() {
    let r = DomainRewriter::new("akatsuki.gg");
    assert!(r.rewrite_backward(Bytes::new()).is_empty());
}

#[test]
fn rewritten_stream_parses_into_rewritten_packets() {
    let r = DomainRewriter::new("akatsuki.gg");
    let mut body = frame(4, b"x a.localhost y");
    body.extend(frame(5, b"nothing"));
    body.extend([1, 2]);
    let out = r.rewrite_forward(Bytes::from(body));
    let (packets, rest) = Packet::parse_stream(&out);
    assert_eq!(packets.len(), 2);
    assert_eq!(packets[0].header.packet_id, 4);
    assert_eq!(packets[0].payload, b"x a.akatsuki.gg y".to_vec());
    assert_eq!(packets[0].header.length as usize, packets[0].payload.len());
    assert_eq!(packets[1].payload, b"nothing".to_vec());
    assert_eq!(rest, vec![1, 2]);
}

#[test]
fn clone_rewrites_alike() {
    let r = DomainRewriter::new("akatsuki.gg");
    let c = r.clone();
    let body = frame(1, b"osu.localhost");
    assert_eq!(r.rewrite_forward(Bytes::from(body.clone())), c.rewrite_forward(Bytes::from(body)));
}
