use rustorrent::message::{
    have_payload, parse_have_payload, parse_piece_header, request_payload, u32_from_be, u32_to_be,
    Message, MessageId,
};

#[test]
fn test_message_id_values() {
    assert_eq!(MessageId::Choke.value(), 0);
    assert_eq!(MessageId::Unchoke.value(), 1);
    assert_eq!(MessageId::Interested.value(), 2);
    assert_eq!(MessageId::NotInterested.value(), 3);
    assert_eq!(MessageId::Have.value(), 4);
    assert_eq!(MessageId::Bitfield.value(), 5);
    assert_eq!(MessageId::Request.value(), 6);
    assert_eq!(MessageId::Piece.value(), 7);
    assert_eq!(MessageId::Cancel.value(), 8);
    assert_eq!(MessageId::Port.value(), 9);
    assert_eq!(MessageId::KeepAlive.value(), 10);
    for v in 0..=10u8 {
        assert_eq!(MessageId::from_value(v).value(), v);
    }
}

#[test]
fn test_be32_roundtrip() {
    let bytes = u32_to_be(0x01020304);
    assert_eq!(bytes, vec![1, 2, 3, 4]);
    assert_eq!(u32_from_be(bytes[0], bytes[1], bytes[2], bytes[3]), 0x01020304);
    assert_eq!(u32_to_be(16384), vec![0, 0, 64, 0]);
}

#[test]
fn test_keep_alive_frame_is_four_zero_bytes() {
    let empty: Vec<u8> = Vec::new();
    let msg = Message::new(MessageId::KeepAlive, &empty);
    assert_eq!(msg.serialize(), vec![0, 0, 0, 0]);
    let back = Message::decode(&msg.serialize()).unwrap();
    assert_eq!(back, msg);
}

#[test]
fn test_frame_roundtrip() {
    let payload = request_payload(3, 0, 16384);
    let msg = Message::new(MessageId::Request, &payload);
    let frame = msg.serialize();
    assert_eq!(frame.len(), 4 + 1 + 12);
    assert_eq!(&frame[0..4], &[0, 0, 0, 13]);
    assert_eq!(frame[4], 6);
    let back = Message::decode(&frame).unwrap();
    assert_eq!(back, msg);

    let empty: Vec<u8> = Vec::new();
    for id in [
        MessageId::Choke,
        MessageId::Unchoke,
        MessageId::Interested,
        MessageId::NotInterested,
    ] {
        let m = Message::new(id, &empty);
        assert_eq!(Message::decode(&m.serialize()).unwrap(), m);
    }

    let have = Message::new(MessageId::Have, &have_payload(7));
    assert_eq!(Message::decode(&have.serialize()).unwrap(), have);
}

#[test]
fn test_decode_rejects_malformed_frames() {
    // Too short for a length prefix.
    assert!(Message::decode(&vec![0, 0, 0]).is_none());
    // Length prefix does not match the byte count.
    assert!(Message::decode(&vec![0, 0, 0, 5, 1]).is_none());
    // An id byte outside the protocol.
    assert!(Message::decode(&vec![0, 0, 0, 1, 42]).is_none());
}

#[test]
fn test_payload_parsers() {
    assert_eq!(parse_have_payload(&have_payload(9)), Some(9));
    assert_eq!(parse_have_payload(&vec![1, 2, 3]), None);
    let p = request_payload(1, 16384, 16384);
    assert_eq!(parse_piece_header(&p), Some((1, 16384)));
    assert_eq!(parse_piece_header(&vec![0; 7]), None);
}
