use rustorrent::bencode::{dict_insert, BencodeString, BencodeValue};
use rustorrent::tracker::{
    generate_peer_id, parse_peers, parse_success_response, to_tracker_response, PeerAddr, Tracker,
    TrackerError, TrackerResponse,
};

#[test]
fn test_generate_peer_id_shape() {
    let id = generate_peer_id();
    assert_eq!(id.len(), 20);
    assert_eq!(&id[0..8], b"-rT0001-");
    for b in &id[8..] {
        assert!((b'a'..=b'z').contains(b));
    }
}

#[test]
fn test_parse_peers_compact() {
    let raw = vec![1u8, 2, 3, 4, 0x1A, 0xE1, 10, 0, 0, 1, 0, 80];
    let peers = parse_peers(&BencodeValue::String(BencodeString::Bytes(raw))).unwrap();
    assert_eq!(peers.len(), 2);
    assert_eq!(peers[0].addr, PeerAddr::V4(1, 2, 3, 4));
    assert_eq!(peers[0].port, 6881);
    assert!(peers[0].peer_id.is_none());
    assert_eq!(peers[1].addr, PeerAddr::V4(10, 0, 0, 1));
    assert_eq!(peers[1].port, 80);

    // A byte count that is not a multiple of six is rejected.
    let bad = parse_peers(&BencodeValue::String(BencodeString::Bytes(vec![1, 2, 3])));
    assert!(matches!(bad, Err(TrackerError::GetPeersFailure(_))));
}

#[test]
fn test_parse_peers_dictionary_form() {
    let mut p: Vec<(String, BencodeValue)> = Vec::new();
    dict_insert(
        &mut p,
        "ip".to_string(),
        BencodeValue::String(BencodeString::String("203.0.113.9".to_string())),
    );
    dict_insert(&mut p, "port".to_string(), BencodeValue::Int(51413));
    dict_insert(
        &mut p,
        "peer id".to_string(),
        BencodeValue::String(BencodeString::String("peerpeerpeerpeerpeer".to_string())),
    );
    let peers = parse_peers(&BencodeValue::List(vec![BencodeValue::Dict(p)])).unwrap();
    assert_eq!(peers.len(), 1);
    assert_eq!(peers[0].addr, PeerAddr::Host("203.0.113.9".to_string()));
    assert_eq!(peers[0].port, 51413);
    assert_eq!(peers[0].peer_id, Some(b"peerpeerpeerpeerpeer".to_vec()));
}

fn success_response() -> BencodeValue {
    let mut d: Vec<(String, BencodeValue)> = Vec::new();
    dict_insert(&mut d, "interval".to_string(), BencodeValue::Int(1800));
    dict_insert(&mut d, "complete".to_string(), BencodeValue::Int(5));
    dict_insert(&mut d, "incomplete".to_string(), BencodeValue::Int(3));
    dict_insert(
        &mut d,
        "peers".to_string(),
        BencodeValue::String(BencodeString::Bytes(vec![1, 2, 3, 4, 0x1A, 0xE1])),
    );
    BencodeValue::Dict(d)
}

#[test]
fn test_parse_success_response() {
    let s = parse_success_response(&success_response()).unwrap();
    assert_eq!(s.interval, 1800);
    assert_eq!(s.complete, 5);
    assert_eq!(s.incomplete, 3);
    assert!(s.min_interval.is_none());
    assert_eq!(s.peers.len(), 1);

    let missing = parse_success_response(&BencodeValue::Dict(Vec::new()));
    assert!(matches!(missing, Err(TrackerError::ResponseParseError(_))));
}

#[test]
fn test_to_tracker_response_failure() {
    let mut d: Vec<(String, BencodeValue)> = Vec::new();
    dict_insert(
        &mut d,
        "failure reason".to_string(),
        BencodeValue::String(BencodeString::String("torrent unknown".to_string())),
    );
    match to_tracker_response(&BencodeValue::Dict(d)).unwrap() {
        TrackerResponse::Failure(f) => assert_eq!(f.failure_reason, "torrent unknown"),
        _ => panic!("expected a failure response"),
    }
}

fn minimal_torrent() -> BencodeValue {
    let mut info: Vec<(String, BencodeValue)> = Vec::new();
    dict_insert(&mut info, "length".to_string(), BencodeValue::Int(16384));
    dict_insert(
        &mut info,
        "name".to_string(),
        BencodeValue::String(BencodeString::String("foo.bin".to_string())),
    );
    dict_insert(&mut info, "piece length".to_string(), BencodeValue::Int(16384));
    dict_insert(
        &mut info,
        "pieces".to_string(),
        BencodeValue::String(BencodeString::Bytes(vec![0xFE; 20])),
    );
    let mut top: Vec<(String, BencodeValue)> = Vec::new();
    dict_insert(
        &mut top,
        "announce".to_string(),
        BencodeValue::String(BencodeString::String("http://t.example/a".to_string())),
    );
    dict_insert(&mut top, "info".to_string(), BencodeValue::Dict(top_info(info)));
    BencodeValue::Dict(top)
}

fn top_info(info: Vec<(String, BencodeValue)>) -> Vec<(String, BencodeValue)> {
    info
}

#[test]
fn test_announce_url() {
    let mut tracker = Tracker::new(minimal_torrent()).unwrap();
    let info_hash = tracker.get_metainfo().get_info_hash().unwrap();
    let url = tracker.build_announce_url().unwrap();

    // The query embeds the form-urlencoded info hash and peer id.
    let expected_hash: String =
        url::form_urlencoded::byte_serialize(&info_hash).collect();
    let expected_pid: String =
        url::form_urlencoded::byte_serialize(&tracker.peer_id()).collect();
    let expected = format!(
        "http://t.example/a?info_hash={}&peer_id={}&port=6881&numwant=100",
        expected_hash, expected_pid
    );
    assert_eq!(url, expected);
    // A SHA-1 digest never survives urlencoding unchanged.
    assert!(expected_hash.contains('%') || expected_hash.contains('+'));

    // Handling a success response stores the interval and yields the peers.
    match to_tracker_response(&success_response()).unwrap() {
        r @ TrackerResponse::Success(_) => {
            let peers = tracker.handle_announce_response(r).unwrap();
            assert_eq!(peers.len(), 1);
            assert_eq!(tracker.last_interval(), Some(1800));
        }
        _ => panic!("expected success"),
    }
}

#[test]
fn test_tracker_rejects_bad_metainfo() {
    assert!(matches!(
        Tracker::new(BencodeValue::Int(1)),
        Err(TrackerError::InvalidMetainfo)
    ));
}
