use framecodec::frame::{Frame, FrameDecoderError};
use framecodec::packet::{Packet, PacketDecoderError};
use framecodec::DecoderError;

#[test]
fn test_packet_new() {
    let payload = vec![1, 2, 3];
    let packet = Packet::new(1, payload.clone());
    assert_eq!(packet.packet_type, 1);
    assert_eq!(packet.length, 3);
    assert_eq!(packet.payload, payload);
}

#[test]
fn test_packet_eof() {
    let packet = Packet::eof();
    assert_eq!(packet.packet_type, 0);
    assert_eq!(packet.length, 0);
    assert_eq!(packet.payload, Vec::new());
}

#[test]
fn test_packet_to_bytes() {
    let payload = vec![1, 2, 3];
    let packet = Packet::new(1, payload.clone());
    let bytes = packet.to_bytes();
    assert_eq!(bytes, vec![1, 3, 0, 1, 2, 3]);
}

#[test]
fn test_packet_from_bytes() {
    let bytes = vec![1, 3, 0, 1, 2, 3];
    let packet = Packet::from_bytes(&bytes).unwrap();
    assert_eq!(packet.packet_type, 1);
    assert_eq!(packet.length, 3);
    assert_eq!(packet.payload, vec![1, 2, 3]);
}

#[test]
fn test_frame_new() {
    let packets = vec![Packet::new(1, vec![1, 2, 3])];
    let frame = Frame::new(packets.clone());
    assert_eq!(frame.packets(), &packets);
}

#[test]
fn test_frame_encode() {
    let packets = vec![Packet::new(1, vec![1, 2, 3])];
    let frame = Frame::new(packets);
    let bytes = frame.to_bytes();
    assert_eq!(bytes, vec![1, 3, 0, 1, 2, 3, 0, 0, 0]);
}

#[test]
fn test_frame_decode() {
    let bytes = vec![1, 3, 0, 1, 2, 3, 0, 0, 0];
    let frame = Frame::from_bytes(&bytes).unwrap();
    let packets = frame.packets();
    assert_eq!(packets.len(), 1);
    assert_eq!(packets[0].packet_type, 1);
    assert_eq!(packets[0].length, 3);
    assert_eq!(packets[0].payload, vec![1, 2, 3]);
}

#[test]
fn test_frame_encode_decode() {
    let packets = vec![
        Packet::new(0x01, vec![0x01, 0x02, 0x03]),
        Packet::new(0x02, vec![0x01, 0x02]),
    ];
    let frame = Frame::new(packets.clone());
    let data = frame.to_bytes();
    let decoded_frame = Frame::from_bytes(&data).unwrap();
    assert_eq!(decoded_frame.packets(), &packets);
}

#[test]
fn test_invalid_frame() {
    let data = vec![0x01, 0x03];
    match Frame::from_bytes(&data) {
        Err(DecoderError::Frame(FrameDecoderError::InvalidFrame)) => (),
        _ => panic!("Expected an error"),
    }
}

#[test]
fn test_invalid_payload() {
    let data = vec![0x01, 0x03, 0x00, 0x01, 0x02, 0x03, 0x02, 0x02, 0x00, 0x01];
    match Frame::from_bytes(&data) {
        Err(DecoderError::Packet(PacketDecoderError::InvalidPayload)) => (),
        _ => panic!("Expected an error"),
    }
}

#[test]
fn packet_round_trip() {
    let packet = Packet::new(7, vec![10, 20, 30, 40]);
    let decoded = Packet::from_bytes(&packet.to_bytes()).unwrap();
    assert_eq!(decoded, packet);
}

#[test]
fn packet_round_trip_empty_payload() {
    let packet = Packet::new(9, Vec::new());
    assert_eq!(packet.length, 0);
    let bytes = packet.to_bytes();
    assert_eq!(bytes, vec![9, 0, 0]);
    assert_eq!(Packet::from_bytes(&bytes).unwrap(), packet);
}

#[test]
fn packet_round_trip_largest_payload() {
    let payload = vec![0xabu8; 65535];
    let packet = Packet::new(3, payload.clone());
    assert_eq!(packet.length, 65535);
    let bytes = packet.to_bytes();
    assert_eq!(bytes.len(), 3 + 65535);
    assert_eq!(bytes[1], 0xff);
    assert_eq!(bytes[2], 0xff);
    let decoded = Packet::from_bytes(&bytes).unwrap();
    assert_eq!(decoded, packet);
}

#[test]
fn packet_length_is_little_endian() {
    let packet = Packet::new(5, vec![0; 300]);
    let bytes = packet.to_bytes();
    assert_eq!(bytes[1], 44);
    assert_eq!(bytes[2], 1);
}

#[test]
fn packet_decode_ignores_trailing_bytes() {
    let bytes = vec![4, 1, 0, 7, 8, 9];
    let packet = Packet::from_bytes(&bytes).unwrap();
    assert_eq!(packet.packet_type, 4);
    assert_eq!(packet.length, 1);
    assert_eq!(packet.payload, vec![7]);
}

#[test]
fn packet_decode_short_buffer() {
    match Packet::from_bytes(&[1, 2]) {
        Err(PacketDecoderError::InvalidPacket) => (),
        _ => panic!("Expected an error"),
    }
    match Packet::from_bytes(&[]) {
        Err(PacketDecoderError::InvalidPacket) => (),
        _ => panic!("Expected an error"),
    }
}

#[test]
fn packet_decode_truncated_payload() {
    match Packet::from_bytes(&[1, 2, 0, 9]) {
        Err(PacketDecoderError::InvalidPayload) => (),
        _ => panic!("Expected an error"),
    }
}

#[test]
fn eof_packet_encodes_as_three_zero_bytes() {
    assert_eq!(Packet::eof().to_bytes(), vec![0, 0, 0]);
}

#[test]
fn empty_frame_round_trip() {
    let frame = Frame::new(Vec::new());
    let bytes = frame.to_bytes();
    assert_eq!(bytes, vec![0, 0, 0]);
    let decoded = Frame::from_bytes(&bytes).unwrap();
    assert!(decoded.packets().is_empty());
}

#[test]
fn frame_decode_stops_at_sentinel() {
    let data = vec![1, 1, 0, 9, 0, 0, 0, 2, 1, 0, 5];
    let frame = Frame::from_bytes(&data).unwrap();
    let packets = frame.packets();
    assert_eq!(packets.len(), 1);
    assert_eq!(packets[0].packet_type, 1);
    assert_eq!(packets[0].payload, vec![9]);
    assert!(packets.iter().all(|p| p.packet_type != 0));
}

#[test]
fn frame_decode_without_sentinel() {
    let data = vec![1, 1, 0, 9, 2, 2, 0, 5, 6];
    let frame = Frame::from_bytes(&data).unwrap();
    let packets = frame.packets();
    assert_eq!(packets.len(), 2);
    assert_eq!(packets[0].payload, vec![9]);
    assert_eq!(packets[1].payload, vec![5, 6]);
}

#[test]
fn frame_decode_empty_buffer() {
    match Frame::from_bytes(&[]) {
        Err(DecoderError::Frame(FrameDecoderError::InvalidFrame)) => (),
        _ => panic!("Expected an error"),
    }
}

#[test]
fn frame_decode_wraps_header_error() {
    let data = vec![1, 3, 0, 1, 2, 3, 5, 1];
    match Frame::from_bytes(&data) {
        Err(DecoderError::Packet(PacketDecoderError::InvalidPacket)) => (),
        _ => panic!("Expected an error"),
    }
}

#[test]
fn error_messages() {
    assert_eq!(PacketDecoderError::InvalidPacket.message(), "Invalid packet");
    assert_eq!(PacketDecoderError::InvalidPayload.message(), "Invalid payload");
    assert_eq!(FrameDecoderError::InvalidFrame.message(), "Invalid frame");
    assert_eq!(FrameDecoderError::EofNotFound.message(), "EOF packet not found");
    assert_eq!(
        DecoderError::Frame(FrameDecoderError::InvalidFrame).message(),
        "Frame decoder error"
    );
    assert_eq!(
        DecoderError::Packet(PacketDecoderError::InvalidPayload).message(),
        "Packet decoder error"
    );
}

#[test]
fn decoder_error_from_wraps_variants() {
    let e: DecoderError = PacketDecoderError::InvalidPacket.into();
    assert_eq!(e, DecoderError::Packet(PacketDecoderError::InvalidPacket));
    let e: DecoderError = FrameDecoderError::InvalidFrame.into();
    assert_eq!(e, DecoderError::Frame(FrameDecoderError::InvalidFrame));
}
