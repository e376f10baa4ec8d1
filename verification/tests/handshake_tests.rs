use rustorrent::handshake::{build_handshake, validate_handshake, ClientError};

#[test]
fn test_build_handshake_layout() {
    let info_hash = vec![0x11u8; 20];
    let peer_id = vec![0x22u8; 20];
    let hs = build_handshake(&info_hash, &peer_id);
    assert_eq!(hs.len(), 68);
    assert_eq!(hs[0], 19);
    assert_eq!(&hs[1..20], b"BitTorrent protocol");
    assert_eq!(&hs[20..28], &[0u8; 8]);
    assert_eq!(&hs[28..48], info_hash.as_slice());
    assert_eq!(&hs[48..68], peer_id.as_slice());
}

#[test]
fn test_validate_handshake_roundtrip() {
    let info_hash = vec![0x11u8; 20];
    let remote_id = vec![0x33u8; 20];
    let hs = build_handshake(&info_hash, &remote_id);
    assert_eq!(validate_handshake(&hs, &info_hash).unwrap(), remote_id);
}

fn message_of(e: ClientError) -> String {
    match e {
        ClientError::ValidateHandshakeError(m) => m,
        _ => panic!("expected a validation error"),
    }
}

#[test]
fn test_validate_handshake_rejections() {
    let info_hash = vec![0x11u8; 20];
    let other_hash = vec![0x44u8; 20];
    let hs = build_handshake(&info_hash, &vec![0x33u8; 20]);

    let short = hs[..67].to_vec();
    assert_eq!(
        message_of(validate_handshake(&short, &info_hash).unwrap_err()),
        "Invalid handshake length"
    );

    let mut bad_len = hs.clone();
    bad_len[0] = 18;
    assert_eq!(
        message_of(validate_handshake(&bad_len, &info_hash).unwrap_err()),
        "Invalid protocol string length"
    );

    let mut bad_pstr = hs.clone();
    bad_pstr[1] = b'X';
    assert_eq!(
        message_of(validate_handshake(&bad_pstr, &info_hash).unwrap_err()),
        "Invalid protocol string"
    );

    assert_eq!(
        message_of(validate_handshake(&hs, &other_hash).unwrap_err()),
        "Invalid info hash"
    );
}
