use osu_proxy::packet::{Packet, PacketHeader, HEADER_LEN};

fn frame(id: u16, payload: &[u8]) -> Vec<u8> {
    let mut v = vec![(id % 256) as u8, (id / 256) as u8, 0];
    v.extend_from_slice(&(payload.len() as u32).to_le_bytes());
    v.extend_from_slice(payload);
    v
}

#[test]
fn parse_stream_splits_packets_and_keeps_tail() {
    let mut data = frame(5, &[1, 2, 3, 4]);
    data.extend(frame(300, &[]));
    data.extend([9, 9, 9]);
    let (packets, rest) = Packet::parse_stream(&data);
    assert_eq!(packets.len(), 2);
    assert_eq!(packets[0].header, PacketHeader { packet_id: 5, compression: 0, length: 4 });
    assert_eq!(packets[0].payload, vec![1, 2, 3, 4]);
    assert_eq!(packets[1].header.packet_id, 300);
    assert_eq!(packets[1].payload, Vec::<u8>::new());
    assert_eq!(rest, vec![9, 9, 9]);
}

#[test]
fn parse_stream_stops_at_incomplete_packet() {
    let mut data = frame(7, &[1, 2]);
    let incomplete = frame(8, &[1, 2, 3, 4, 5]);
    data.extend_from_slice(&incomplete[..HEADER_LEN + 2]);
    let (packets, rest) = Packet::parse_stream(&data);
    assert_eq!(packets.len(), 1);
    assert_eq!(rest, incomplete[..HEADER_LEN + 2].to_vec());
}

#[test]
fn to_bytes_round_trips() {
    let data = frame(0x1234, &[7, 7, 7]);
    let (packets, rest) = Packet::parse_stream(&data);
    assert!(rest.is_empty());
    assert_eq!(packets[0].to_bytes(), data);
}

#[test]
fn to_bytes_writes_little_endian_header() {
    let p = Packet {
        header: PacketHeader { packet_id: 0x0102, compression: 1, length: 0x0a0b0c0d },
        payload: vec![0xff],
    };
    assert_eq!(p.to_bytes(), vec![0x02, 0x01, 1, 0x0d, 0x0c, 0x0b, 0x0a, 0xff]);
}

#[test]
fn short_stream_is_all_tail() {
    let (packets, rest) = Packet::parse_stream(&[1, 2, 3]);
    assert!(packets.is_empty());
    assert_eq!(rest, vec![1, 2, 3]);
}

#[test]
fn parsed_packets_encode_back_to_the_stream() {
    let mut data = frame(1, b"abc");
    data.extend(frame(2, &[0; 10]));
    data.extend([7, 0, 0]);
    let (packets, rest) = Packet::parse_stream(&data);
    let mut again: Vec<u8> = packets.iter().flat_map(|p| p.to_bytes()).collect();
    again.extend(rest);
    assert_eq!(again, data);
}

#[test]
fn encoded_packets_parse_back() {
    let ps = vec![
        Packet { header: PacketHeader { packet_id: 3, compression: 0, length: 2 }, payload: vec![1, 2] },
        Packet { header: PacketHeader { packet_id: 4, compression: 1, length: 0 }, payload: vec![] },
    ];
    let mut data: Vec<u8> = ps.iter().flat_map(|p| p.to_bytes()).collect();
    data.extend([1, 2, 3]);
    let (parsed, rest) = Packet::parse_stream(&data);
    assert_eq!(parsed.len(), 2);
    for (a, b) in parsed.iter().zip(ps.iter()) {
        assert_eq!(a.header, b.header);
        assert_eq!(a.payload, b.payload);
    }
    assert_eq!(rest, vec![1, 2, 3]);
}
