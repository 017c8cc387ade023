use socks_broker::packet::{
    build_data_frame, build_heartbeat_command, build_init_session_command,
    build_location_check_command, build_speed_test_command, build_version_check_command,
    decode_frame, parse_header, CommandType, Decoded, FrameReader, PacketType, HEADER_LEN,
    MAX_PAYLOAD_LEN,
};

#[test]
fn init_session_frame_has_documented_layout() {
    let frame = build_init_session_command(1, b"example.com:80");
    let mut expected = vec![0x01, 0x00, 0x00, 0x00, 0x01, 0x05, 0x00, 0x00, 0x00, 14];
    expected.extend_from_slice(b"example.com:80");
    assert_eq!(frame, expected);
}

#[test]
fn data_frame_has_documented_layout() {
    let frame = build_data_frame(1, b"hello");
    let mut expected = vec![0x00, 0x00, 0x00, 0x00, 0x01, 0x00, 0x00, 0x00, 0x00, 5];
    expected.extend_from_slice(b"hello");
    assert_eq!(frame, expected);
}

#[test]
fn version_check_and_heartbeat_are_empty_commands() {
    assert_eq!(
        build_version_check_command(),
        vec![0x01, 0, 0, 0, 0, 0x02, 0, 0, 0, 0]
    );
    assert_eq!(
        build_heartbeat_command(),
        vec![0x01, 0, 0, 0, 0, 0x03, 0, 0, 0, 0]
    );
}

#[test]
fn speed_test_command_carries_url() {
    let frame = build_speed_test_command(b"https://speed.cloudflare.com/__down?bytes=5000000");
    assert_eq!(frame[0], 0x01);
    assert_eq!(frame[5], 0x01);
    assert_eq!(&frame[10..], b"https://speed.cloudflare.com/__down?bytes=5000000");
}

#[test]
fn location_check_command_builds_lookup_url() {
    let frame = build_location_check_command(b"8.8.8.8");
    assert_eq!(frame[5], 0x04);
    assert_eq!(&frame[10..], b"https://ipinfo.io/widget/demo/8.8.8.8");
}

#[test]
fn parse_header_short_buffer_gives_nothing() {
    let buf = [0x00u8; 9];
    let (kind, sid, len, cmd) = parse_header(&buf);
    assert!(kind.is_none());
    assert_eq!(sid, 0);
    assert_eq!(len, 0);
    assert!(cmd.is_none());
}

#[test]
fn parse_header_reads_fields_big_endian() {
    let buf = [0x01, 0xAA, 0xBB, 0xCC, 0xDD, 0x03, 0x00, 0x00, 0x01, 0x02];
    let (kind, sid, len, cmd) = parse_header(&buf);
    assert_eq!(kind, Some(PacketType::Command));
    assert_eq!(sid, 0xAABBCCDD);
    assert_eq!(len, 0x0102);
    assert!(matches!(cmd, Some(CommandType::Heartbeat)));
}

#[test]
fn parse_header_ignores_command_byte_on_data() {
    let buf = [0x00, 0, 0, 0, 7, 0x05, 0, 0, 0, 0];
    let (kind, _, _, cmd) = parse_header(&buf);
    assert_eq!(kind, Some(PacketType::Data));
    assert!(cmd.is_none());
}

#[test]
fn garbled_packet_kind_is_invalid() {
    let mut buf = vec![0x7F];
    buf.extend_from_slice(&[0; 9]);
    assert!(matches!(decode_frame(&buf), Decoded::Invalid));
}

#[test]
fn oversized_payload_length_is_invalid() {
    // 8183 > MAX_PAYLOAD_LEN: refused from the header alone
    let over = (MAX_PAYLOAD_LEN as u32) + 1;
    let b = over.to_be_bytes();
    let buf = vec![0x00, 0, 0, 0, 1, 0x00, b[0], b[1], b[2], b[3]];
    assert!(matches!(decode_frame(&buf), Decoded::Invalid));
}

#[test]
fn largest_payload_length_is_accepted() {
    let l = MAX_PAYLOAD_LEN as u32;
    let b = l.to_be_bytes();
    let mut buf = vec![0x00, 0, 0, 0, 1, 0x00, b[0], b[1], b[2], b[3]];
    buf.extend(std::iter::repeat(0x42u8).take(MAX_PAYLOAD_LEN));
    match decode_frame(&buf) {
        Decoded::Ready { frame, consumed } => {
            assert_eq!(consumed, HEADER_LEN + MAX_PAYLOAD_LEN);
            assert_eq!(frame.payload.len(), MAX_PAYLOAD_LEN);
        }
        _ => panic!("whole frame expected"),
    }
}

#[test]
fn partial_frame_needs_more() {
    let frame = build_data_frame(9, b"abc");
    assert!(matches!(decode_frame(&frame[..2]), Decoded::NeedsMore));
    assert!(matches!(decode_frame(&frame[..12]), Decoded::NeedsMore));
}

#[test]
fn reader_reproduces_frames_across_chunk_boundaries() {
    // three frames, fed one byte at a time
    let mut stream = Vec::new();
    stream.extend_from_slice(&build_data_frame(1, b"hello"));
    stream.extend_from_slice(&build_init_session_command(2, b"example.com:80"));
    stream.extend_from_slice(&build_data_frame(1, b""));

    let mut reader = FrameReader::new();
    let mut out = Vec::new();
    for b in &stream {
        reader.feed(&[*b]);
        loop {
            match reader.poll() {
                Decoded::Ready { frame, .. } => out.push(frame),
                Decoded::NeedsMore => break,
                Decoded::Invalid => panic!("valid stream"),
            }
        }
    }
    assert_eq!(out.len(), 3);
    assert_eq!(out[0].kind, PacketType::Data);
    assert_eq!(out[0].session_id, 1);
    assert_eq!(out[0].payload, b"hello".to_vec());
    assert_eq!(out[1].kind, PacketType::Command);
    assert_eq!(out[1].session_id, 2);
    assert!(matches!(out[1].command, Some(CommandType::InitSession)));
    assert_eq!(out[1].payload, b"example.com:80".to_vec());
    assert_eq!(out[2].payload.len(), 0);
}

#[test]
fn packet_and_command_kinds_round_trip() {
    assert_eq!(PacketType::from_u8(0x00), Some(PacketType::Data));
    assert_eq!(PacketType::from_u8(0x01), Some(PacketType::Command));
    assert_eq!(PacketType::from_u8(0x02), None);
    assert!(matches!(CommandType::from_u8(0x01), Some(CommandType::SpeedCheck)));
    assert!(matches!(CommandType::from_u8(0x02), Some(CommandType::VersionCheck)));
    assert!(matches!(CommandType::from_u8(0x03), Some(CommandType::Heartbeat)));
    assert!(matches!(CommandType::from_u8(0x04), Some(CommandType::LocationCheck)));
    assert!(matches!(CommandType::from_u8(0x05), Some(CommandType::InitSession)));
    assert!(CommandType::from_u8(0x06).is_none());
    assert!(CommandType::from_u8(0x00).is_none());
}
