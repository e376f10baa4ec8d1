use rustorrent::engine::{Action, Engine};
use rustorrent::filemap::FileMapper;
use rustorrent::message::{request_payload, Message, MessageId};
use rustorrent::pieces::PieceScheduler;
use rustorrent::sha1sum::check_piece_hash;
use sha1::{Digest, Sha1};

fn pid(tag: u8) -> Vec<u8> {
    vec![tag; 20]
}

fn msg(id: MessageId, payload: Vec<u8>) -> Message {
    Message::new(id, &payload)
}

fn sha1_of(data: &[u8]) -> Vec<u8> {
    let mut h = Sha1::new();
    h.update(data);
    h.finalize().to_vec()
}

#[test]
fn test_single_file_single_piece_single_peer() {
    // One file `foo.bin` of 16384 bytes, one piece whose hash is the SHA-1
    // of 16384 zero bytes, one simulated peer.
    let zeros = vec![0u8; 16384];
    let hash = sha1_of(&zeros);
    let scheduler = PieceScheduler::new(vec![hash.clone()], 16384, 16384);
    let mut engine = Engine::new(scheduler);
    let peer = pid(1);
    assert!(engine.add_peer(&peer));

    // BITFIELD 0x80: the peer has the piece; we become interested.
    let acts = engine.handle_message(&peer, &msg(MessageId::Bitfield, vec![0x80]));
    assert_eq!(acts.len(), 1);
    match &acts[0] {
        Action::Send { peer_id, message } => {
            assert_eq!(peer_id, &peer);
            assert_eq!(message.serialize(), vec![0, 0, 0, 1, 2]);
        }
        _ => panic!("expected a send"),
    }

    // UNCHOKE: the engine must request the whole piece as one block.
    let acts = engine.handle_message(&peer, &msg(MessageId::Unchoke, vec![]));
    assert_eq!(acts.len(), 1);
    match &acts[0] {
        Action::Send { message, .. } => {
            assert_eq!(message.get_id().value(), 6);
            assert_eq!(message.get_payload(), &request_payload(0, 0, 16384));
        }
        _ => panic!("expected a request"),
    }

    // PIECE(0, 0, 16384 zero bytes).
    let mut payload = request_payload(0, 0, 0);
    payload.truncate(8);
    payload.extend_from_slice(&zeros);
    let acts = engine.handle_message(&peer, &msg(MessageId::Piece, payload));

    // Persist the block into the single file and verify the piece.
    let mapper = FileMapper::new(16384, vec![16384]);
    let mut foo_bin = vec![0xAAu8; 16384];
    let mut verify_asked = false;
    for a in &acts {
        match a {
            Action::SaveBlock { piece_index, begin } => {
                let off = mapper.block_byte_offset(*piece_index, *begin);
                for s in mapper.map_range(off, 16384) {
                    let st = s.offset as usize;
                    foo_bin[st..st + s.length as usize]
                        .copy_from_slice(&zeros[..s.length as usize]);
                }
            }
            Action::VerifyPiece { piece_index } => {
                verify_asked = true;
                let (start, len) = mapper.piece_range(*piece_index);
                let bytes = foo_bin[start as usize..(start + len) as usize].to_vec();
                let ok = check_piece_hash(&bytes, &hash);
                assert!(ok);
                engine.scheduler.piece_verified(*piece_index as usize, ok);
            }
            _ => {}
        }
    }
    assert!(verify_asked);
    assert_eq!(foo_bin, zeros);
    assert_eq!(engine.scheduler.to_bitfield().to_bytes(), vec![0x80]);
}

#[test]
fn test_bitfield_of_wrong_length_evicts() {
    // N = 10 pieces needs ceil(10 / 8) = 2 bytes; a 1-byte payload evicts.
    let hashes: Vec<Vec<u8>> = (0..10).map(|i| vec![i as u8; 20]).collect();
    let scheduler = PieceScheduler::new(hashes, 16384, 10 * 16384);
    let mut engine = Engine::new(scheduler);
    let peer = pid(2);
    assert!(engine.add_peer(&peer));
    let acts = engine.handle_message(&peer, &msg(MessageId::Bitfield, vec![0xFF]));
    assert_eq!(acts.len(), 1);
    match &acts[0] {
        Action::Evict { peer_id } => assert_eq!(peer_id, &peer),
        _ => panic!("expected an eviction"),
    }
    assert!(engine.peers.is_empty());
    for p in &engine.scheduler.pieces {
        assert!(p.peers.is_empty());
    }
}

#[test]
fn test_choke_resets_inflight_requests() {
    // The peer has only piece 3; after UNCHOKE the engine requests (3, 0);
    // a CHOKE before the PIECE arrives voids the request, and a later
    // UNCHOKE asks for the same block again.
    let hashes: Vec<Vec<u8>> = (0..4).map(|i| vec![i as u8; 20]).collect();
    let scheduler = PieceScheduler::new(hashes, 16384, 4 * 16384);
    let mut engine = Engine::new(scheduler);
    let peer = pid(3);
    assert!(engine.add_peer(&peer));
    let acts = engine.handle_message(&peer, &msg(MessageId::Have, vec![0, 0, 0, 3]));
    assert_eq!(acts.len(), 1);

    let acts = engine.handle_message(&peer, &msg(MessageId::Unchoke, vec![]));
    match &acts[0] {
        Action::Send { message, .. } => {
            assert_eq!(message.get_payload(), &request_payload(3, 0, 16384));
        }
        _ => panic!("expected a request"),
    }
    assert!(engine.scheduler.pieces[3].blocks[0].requested_by.is_some());

    let acts = engine.handle_message(&peer, &msg(MessageId::Choke, vec![]));
    assert!(acts.is_empty());
    assert!(engine.scheduler.pieces[3].blocks[0].requested_by.is_none());

    let acts = engine.handle_message(&peer, &msg(MessageId::Unchoke, vec![]));
    match &acts[0] {
        Action::Send { message, .. } => {
            assert_eq!(message.get_payload(), &request_payload(3, 0, 16384));
        }
        _ => panic!("expected the block to be re-requested"),
    }
}

#[test]
fn test_eviction_cleans_peer_out() {
    let hashes: Vec<Vec<u8>> = (0..2).map(|i| vec![i as u8; 20]).collect();
    let scheduler = PieceScheduler::new(hashes, 16384, 2 * 16384);
    let mut engine = Engine::new(scheduler);
    let peer = pid(4);
    let other = pid(5);
    assert!(engine.add_peer(&peer));
    assert!(engine.add_peer(&other));
    engine.handle_message(&peer, &msg(MessageId::Bitfield, vec![0b11000000]));
    engine.handle_message(&other, &msg(MessageId::Have, vec![0, 0, 0, 1]));
    engine.handle_message(&peer, &msg(MessageId::Unchoke, vec![]));

    engine.remove_peer(&peer);
    assert_eq!(engine.peers.len(), 1);
    assert_eq!(engine.peers[0].peer_id, other);
    for p in &engine.scheduler.pieces {
        assert!(!p.peers.iter().any(|q| q == &peer));
        for b in &p.blocks {
            assert!(b.requested_by.as_ref() != Some(&peer));
        }
    }
    // A message from the evicted peer is discarded whole.
    let acts = engine.handle_message(&peer, &msg(MessageId::Unchoke, vec![]));
    assert!(acts.is_empty());
}

#[test]
fn test_have_out_of_range_evicts() {
    let hashes: Vec<Vec<u8>> = (0..2).map(|i| vec![i as u8; 20]).collect();
    let scheduler = PieceScheduler::new(hashes, 16384, 2 * 16384);
    let mut engine = Engine::new(scheduler);
    let peer = pid(6);
    assert!(engine.add_peer(&peer));
    let acts = engine.handle_message(&peer, &msg(MessageId::Have, vec![0, 0, 0, 9]));
    assert_eq!(acts.len(), 1);
    assert!(matches!(&acts[0], Action::Evict { .. }));
    assert!(engine.peers.is_empty());
}

#[test]
fn test_unrequested_piece_is_dropped() {
    // A PIECE for a block nobody requested is a benign CANCEL race: no
    // state change, no actions.
    let hashes: Vec<Vec<u8>> = (0..1).map(|i| vec![i as u8; 20]).collect();
    let scheduler = PieceScheduler::new(hashes, 16384, 16384);
    let mut engine = Engine::new(scheduler);
    let peer = pid(7);
    assert!(engine.add_peer(&peer));
    let mut payload = vec![0u8; 8];
    payload.extend_from_slice(&vec![0u8; 16384]);
    let acts = engine.handle_message(&peer, &msg(MessageId::Piece, payload));
    assert!(acts.is_empty());
    assert!(!engine.scheduler.pieces[0].blocks[0].completed);
}

#[test]
fn test_bad_piece_rescheduled_to_next_peer() {
    // Two pieces, a peer that sends bytes that mis-hash: after the failed
    // verification the blocks reset, and another unchoked peer is asked for
    // the same piece; the right bytes then complete the file.
    let good0 = vec![7u8; 16384];
    let good1 = vec![9u8; 16384];
    let hashes = vec![sha1_of(&good0), sha1_of(&good1)];
    let scheduler = PieceScheduler::new(hashes.clone(), 16384, 32768);
    let mut engine = Engine::new(scheduler);
    let bad_peer = pid(8);
    let good_peer = pid(9);
    assert!(engine.add_peer(&bad_peer));
    assert!(engine.add_peer(&good_peer));
    engine.handle_message(&bad_peer, &msg(MessageId::Bitfield, vec![0b11000000]));
    engine.handle_message(&good_peer, &msg(MessageId::Bitfield, vec![0b11000000]));

    let acts = engine.handle_message(&bad_peer, &msg(MessageId::Unchoke, vec![]));
    let (piece, begin) = match &acts[0] {
        Action::Send { message, .. } => {
            let p = message.get_payload();
            (
                u32::from_be_bytes([p[0], p[1], p[2], p[3]]),
                u32::from_be_bytes([p[4], p[5], p[6], p[7]]),
            )
        }
        _ => panic!("expected a request"),
    };

    // The bad peer answers with wrong bytes.
    let mut payload = Vec::new();
    payload.extend_from_slice(&piece.to_be_bytes());
    payload.extend_from_slice(&begin.to_be_bytes());
    payload.extend_from_slice(&vec![0x55u8; 16384]);
    let acts = engine.handle_message(&bad_peer, &msg(MessageId::Piece, payload));
    let mut verified = None;
    for a in &acts {
        if let Action::VerifyPiece { piece_index } = a {
            let ok = check_piece_hash(&vec![0x55u8; 16384], &hashes[*piece_index as usize]);
            assert!(!ok);
            engine.scheduler.piece_verified(*piece_index as usize, ok);
            verified = Some(*piece_index);
        }
    }
    assert_eq!(verified, Some(piece));
    assert!(!engine.scheduler.pieces[piece as usize].completed);
    assert!(!engine.scheduler.pieces[piece as usize].blocks[0].completed);

    // The other peer can now be asked for the same piece.
    let acts = engine.handle_message(&good_peer, &msg(MessageId::Unchoke, vec![]));
    assert!(matches!(&acts[0], Action::Send { .. }));
}
