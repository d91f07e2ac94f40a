use packets::{Packet, PacketError, PacketSerializer, Packetable};

fn collect(mut s: PacketSerializer) -> Vec<Packet> {
    let mut out = Vec::new();
    while let Some(p) = s.next() {
        out.push(p);
    }
    out
}

fn frame_of(payload: &[u8]) -> Vec<u8> {
    let (p, rest) = Packet::from_source(payload, 255);
    assert!(rest.is_empty());
    p.serialize()
}

#[test]
fn test_basic_packets() {
    let source = b"hello";
    let (packet, remainder) = Packet::from_source(source, 100);

    assert_eq!(packet.payload().len(), source.len());
    assert_eq!(remainder, b"");
    assert!(packet.serialize().len() > 0);

    if let Err(_) = Packet::deserialize(&packet.serialize()) {
        assert!(false, "Couldn't deserialize serialized packet");
    }
}

#[test]
fn test_basic_iteration() {
    let source = String::from("hello");
    let packets = collect(source.to_packets(100));
    assert!(packets.len() > 0);

    let data = source.to_packet_data(100);
    assert!(data.len() > 0);

    if let Err(_) = String::from_packet_data(&data) {
        assert!(false, "Couldn't deserialize serialized packet data");
    }
}

#[test]
fn single_chunk_packet() {
    let packets = collect(String::from("hello").to_packets(100));
    assert_eq!(packets.len(), 1);
    assert_eq!(packets[0].payload(), b"hello");
    assert_eq!(packets[0].length(), 5);
    assert_eq!(packets[0].checksum(), 532);
    assert_eq!(packets[0].version(), 1);
}

#[test]
fn multi_chunk_packets() {
    let packets = collect(String::from("hello").to_packets(2));
    assert_eq!(packets.len(), 3);
    assert_eq!(packets[0].payload(), b"he");
    assert_eq!(packets[1].payload(), b"ll");
    assert_eq!(packets[2].payload(), b"o");
    assert_eq!(packets[0].length(), 2);
    assert_eq!(packets[1].length(), 2);
    assert_eq!(packets[2].length(), 1);
}

#[test]
fn empty_message_is_one_empty_packet() {
    let packets = collect(String::new().to_packets(10));
    assert_eq!(packets.len(), 1);
    assert_eq!(packets[0].payload(), b"");
    assert_eq!(packets[0].length(), 0);
    assert_eq!(packets[0].checksum(), 0);
    let data = String::new().to_packet_data(10);
    assert_eq!(data, vec![1, 0, 0, 0, 0, 0]);
    assert_eq!(String::from_packet_data(&data), Ok(String::new()));
}

#[test]
fn packet_count_is_ceiling() {
    let text = "a".repeat(10);
    assert_eq!(collect(text.to_packets(3)).len(), 4);
    assert_eq!(collect(text.to_packets(5)).len(), 2);
    assert_eq!(collect(text.to_packets(1)).len(), 10);
    assert_eq!(collect(text.to_packets(255)).len(), 1);
}

#[test]
fn serializer_runs_dry() {
    let mut s = String::from("abc").to_packets(2);
    assert!(s.next().is_some());
    assert!(s.next().is_some());
    assert!(s.next().is_none());
    assert!(s.next().is_none());
}

#[test]
fn from_source_splits_off_rest() {
    let (p, rest) = Packet::from_source(b"abcdef", 4);
    assert_eq!(p.payload(), b"abcd");
    assert_eq!(p.length(), 4);
    assert_eq!(p.checksum(), 97 + 98 + 99 + 100);
    assert_eq!(rest, b"ef");
}

#[test]
fn serialize_exact_bytes() {
    let (p, _) = Packet::from_source(b"hello", 100);
    assert_eq!(p.serialize(), vec![1, 5, 104, 101, 108, 108, 111, 0, 0, 2, 20]);
}

#[test]
fn largest_checksum() {
    let payload = vec![255u8; 255];
    let (p, rest) = Packet::from_source(&payload, 255);
    assert!(rest.is_empty());
    assert_eq!(p.length(), 255);
    assert_eq!(p.checksum(), 65025);
    let bytes = p.serialize();
    assert_eq!(bytes.len(), 261);
    assert_eq!(&bytes[257..], &[0, 0, 0xfe, 0x01]);
    let (q, rest) = Packet::deserialize(&bytes).unwrap();
    assert!(rest.is_empty());
    assert_eq!(q.payload(), &payload[..]);
}

#[test]
fn deserialize_returns_rest() {
    let mut bytes = frame_of(b"hi");
    bytes.extend_from_slice(&[9, 8, 7]);
    let (p, rest) = Packet::deserialize(&bytes).unwrap();
    assert_eq!(p.payload(), b"hi");
    assert_eq!(p.checksum(), 104 + 105);
    assert_eq!(rest, &[9, 8, 7]);
}

#[test]
fn clone_keeps_fields() {
    let (p, _) = Packet::from_source(b"xyz", 10);
    let q = p.clone();
    assert_eq!(q.payload(), p.payload());
    assert_eq!(q.length(), p.length());
    assert_eq!(q.checksum(), p.checksum());
    assert_eq!(q.serialize(), p.serialize());
}

#[test]
fn round_trip_texts() {
    let texts = ["", "hello", "a", "héllo wörld ✓ 🎉", "Здравей, свят!", &"long text ".repeat(60)];
    for text in texts.iter() {
        for size in [1u8, 2, 3, 7, 100, 254, 255] {
            let m = String::from(*text);
            let data = m.to_packet_data(size);
            assert_eq!(String::from_packet_data(&data), Ok(m.clone()));
        }
    }
}

#[test]
fn multi_byte_text_split_inside_a_char() {
    let m = String::from("ж€𝄞");
    let packets = collect(m.to_packets(1));
    assert_eq!(packets.len(), m.len());
    assert_eq!(String::from_packet_data(&m.to_packet_data(1)), Ok(m));
}

#[test]
fn flipped_payload_byte_fails_checksum() {
    let frame = frame_of(b"hello");
    for i in 0..5 {
        for v in [0u8, 1, 104, 255] {
            if frame[2 + i] == v {
                continue;
            }
            let mut bad = frame.clone();
            bad[2 + i] = v;
            assert_eq!(Packet::deserialize(&bad).err(), Some(PacketError::InvalidChecksum));
            assert_eq!(String::from_packet_data(&bad), Err(PacketError::InvalidChecksum));
        }
    }
}

#[test]
fn flipped_checksum_byte_fails_checksum() {
    let mut bad = frame_of(b"hello");
    bad[10] ^= 1;
    assert_eq!(Packet::deserialize(&bad).err(), Some(PacketError::InvalidChecksum));
}

#[test]
fn wrong_version_refused() {
    let frame = frame_of(b"hello");
    for v in [0u8, 2, 7, 255] {
        let mut bad = frame.clone();
        bad[0] = v;
        assert_eq!(Packet::deserialize(&bad).err(), Some(PacketError::UnknownProtocolVersion));
        assert_eq!(String::from_packet_data(&bad), Err(PacketError::UnknownProtocolVersion));
    }
}

#[test]
fn truncated_frame_refused() {
    let frame = frame_of(b"hello");
    assert_eq!(frame.len(), 11);
    for k in 0..frame.len() {
        assert_eq!(Packet::deserialize(&frame[..k]).err(), Some(PacketError::InvalidPacket));
    }
    for k in 1..frame.len() {
        assert_eq!(String::from_packet_data(&frame[..k]), Err(PacketError::InvalidPacket));
    }
    assert!(Packet::deserialize(&frame).is_ok());
}

#[test]
fn truncated_second_frame_refused() {
    let mut data = String::from("hello").to_packet_data(3);
    data.pop();
    assert_eq!(String::from_packet_data(&data), Err(PacketError::InvalidPacket));
}

#[test]
fn trailing_byte_refused() {
    let mut data = String::from("hello").to_packet_data(3);
    data.push(1);
    assert_eq!(String::from_packet_data(&data), Err(PacketError::InvalidPacket));
}

#[test]
fn corrupted_utf8_detected() {
    let data = frame_of(&[0x80]);
    assert_eq!(data, vec![1, 1, 0x80, 0, 0, 0, 0x80]);
    assert!(Packet::deserialize(&data).is_ok());
    assert_eq!(String::from_packet_data(&data), Err(PacketError::CorruptedMessage));
}

#[test]
fn utf8_split_across_frames_is_text() {
    let euro = "€".as_bytes();
    let mut data = frame_of(&euro[..1]);
    data.extend(frame_of(&euro[1..]));
    assert_eq!(String::from_packet_data(&data), Ok(String::from("€")));
}

#[test]
fn empty_data_is_empty_text() {
    assert_eq!(String::from_packet_data(&[]), Ok(String::new()));
    assert_eq!(Packet::deserialize(&[]).err(), Some(PacketError::InvalidPacket));
    assert_eq!(Packet::deserialize(&[1]).err(), Some(PacketError::InvalidPacket));
}

#[test]
fn error_names() {
    assert_eq!(PacketError::InvalidPacket.name(), "InvalidPacket");
    assert_eq!(PacketError::InvalidChecksum.name(), "InvalidChecksum");
    assert_eq!(PacketError::UnknownProtocolVersion.name(), "UnknownProtocolVersion");
    assert_eq!(PacketError::CorruptedMessage.name(), "CorruptedMessage");
}

#[test]
fn packet_equality() {
    let (a, _) = Packet::from_source(b"abc", 10);
    let (b, _) = Packet::from_source(b"abcdef", 3);
    let (c, _) = Packet::from_source(b"abd", 10);
    assert!(a == b);
    assert!(a != c);
    let (d, _) = Packet::deserialize(&a.serialize()).unwrap();
    assert!(d == a);
}

#[test]
fn stream_changed_payload_byte_in_later_frame() {
    let data = String::from("hello world").to_packet_data(4);
    // frames of 10, 10 and 9 bytes; byte 12 is the first payload byte of the second
    assert_eq!(data.len(), 29);
    for off in [12usize, 13, 15, 22, 24] {
        let mut bad = data.clone();
        bad[off] ^= 0x01;
        assert_eq!(String::from_packet_data(&bad), Err(PacketError::InvalidChecksum));
    }
}

#[test]
fn stream_wrong_version_in_later_frame() {
    let data = String::from("hello world").to_packet_data(4);
    for off in [10usize, 20] {
        let mut bad = data.clone();
        bad[off] = 2;
        assert_eq!(String::from_packet_data(&bad), Err(PacketError::UnknownProtocolVersion));
    }
}

#[test]
fn stream_cut_inside_later_frame() {
    let data = String::from("hello world").to_packet_data(4);
    for k in 1..data.len() {
        let got = String::from_packet_data(&data[..k]);
        if k == 10 || k == 20 {
            assert!(got.is_ok());
        } else {
            assert_eq!(got, Err(PacketError::InvalidPacket));
        }
    }
    assert_eq!(String::from_packet_data(&data[..10]), Ok(String::from("hell")));
    assert_eq!(String::from_packet_data(&data[..20]), Ok(String::from("hello wo")));
}

#[test]
fn stream_non_utf8_payloads_across_frames() {
    let mut data = frame_of(b"ok");
    data.extend(frame_of(&[0xff, 0xfe]));
    data.extend(frame_of(b"!"));
    assert_eq!(String::from_packet_data(&data), Err(PacketError::CorruptedMessage));
}

#[test]
fn serialized_length_is_overhead_plus_payload() {
    for n in [0usize, 1, 17, 255] {
        let payload = vec![7u8; n];
        let (p, _) = Packet::from_source(&payload, 255);
        assert_eq!(p.serialize().len(), 6 + n);
    }
}
