use rustorrent::pieces::PieceScheduler;

fn dummy_hashes(n: usize) -> Vec<Vec<u8>> {
    (0..n).map(|i| vec![i as u8; 20]).collect()
}

fn pid(tag: u8) -> Vec<u8> {
    vec![tag; 20]
}

#[test]
fn test_rarest_first_selection() {
    // Four pieces; piece 3 completes first so rarest-first is in force.
    // Peer-set sizes among the open pieces: piece 0 has 5, piece 1 has 2,
    // piece 2 has 3.  Peer X holds all three, so piece 1 must be chosen.
    let mut s = PieceScheduler::new(dummy_hashes(4), 16384, 4 * 16384);
    let x = pid(100);
    for p in 0..5u8 {
        s.add_peer_have(&pid(p), 0);
    }
    for p in 10..12u8 {
        s.add_peer_have(&pid(p), 1);
    }
    for p in 20..23u8 {
        s.add_peer_have(&pid(p), 2);
    }
    s.add_peer_have(&x, 0);
    s.add_peer_have(&x, 1);
    s.add_peer_have(&x, 2);

    // Finish piece 3 to switch the policy on.
    let done = s.set_block(3, 0);
    assert!(done);
    s.piece_verified(3, true);
    assert!(s.any_complete);

    // Peer X now has 6, 3 and 4 company on the three open pieces.
    assert_eq!(s.schedule_piece(&x), Some((1, 0, 16384)));
}

#[test]
fn test_schedule_exclusivity_and_reset() {
    // One piece, one block: scheduling marks the block requested, so a
    // second call finds nothing until the request is reset.
    let mut s = PieceScheduler::new(dummy_hashes(1), 16384, 16384);
    let x = pid(1);
    s.add_peer_have(&x, 0);
    assert_eq!(s.schedule_piece(&x), Some((0, 0, 16384)));
    assert_eq!(s.schedule_piece(&x), None);
    s.reset_peer_requests(&x);
    assert_eq!(s.schedule_piece(&x), Some((0, 0, 16384)));
}

#[test]
fn test_completeness_all_blocks_in() {
    // Two pieces of two blocks each; the second piece is a short tail.
    let total: u64 = 2 * 32768 - 5000;
    let mut s = PieceScheduler::new(dummy_hashes(2), 32768, total);
    assert_eq!(s.len(), 2);
    assert!(!s.set_block(0, 0));
    assert!(s.set_block(0, 16384));
    s.piece_verified(0, true);
    assert!(!s.set_block(1, 0));
    assert!(s.set_block(1, 16384));
    s.piece_verified(1, true);
    let bf = s.to_bitfield();
    assert_eq!(bf.to_bytes(), vec![0b11000000]);
    for i in 0..2 {
        assert!(bf.is_set(i).unwrap());
    }
}

#[test]
fn test_hash_mismatch_resets_blocks() {
    // A mis-hashing piece has its blocks cleared and is scheduled again.
    let mut s = PieceScheduler::new(dummy_hashes(2), 16384, 32768);
    let x = pid(7);
    s.add_peer_have(&x, 0);
    s.add_peer_have(&x, 1);
    let (pi, begin, len) = s.schedule_piece(&x).unwrap();
    assert_eq!(len, 16384);
    let done = s.set_block(pi as usize, begin);
    assert!(done);
    s.piece_verified(pi as usize, false);
    assert!(!s.any_complete);
    assert!(!s.pieces[pi as usize].completed);
    assert!(!s.pieces[pi as usize].blocks[0].completed);
    assert!(s.pieces[pi as usize].blocks[0].requested_by.is_none());
    // The same block can be scheduled again.
    let again = s.schedule_piece(&x).unwrap();
    assert_eq!(again.1, 0);
    assert_eq!(again.2, 16384);
}

#[test]
fn test_peer_sets_and_interest() {
    let mut s = PieceScheduler::new(dummy_hashes(2), 16384, 32768);
    let x = pid(3);
    let bf_all = rustorrent::bitfield::Bitfield::from_bytes(&vec![0b11000000], 2);
    s.add_peer_count(&x, &bf_all);
    assert_eq!(s.pieces[0].peers.len(), 1);
    assert_eq!(s.pieces[1].peers.len(), 1);
    // Adding the same peer twice keeps set semantics.
    s.add_peer_count(&x, &bf_all);
    assert_eq!(s.pieces[0].peers.len(), 1);
    assert!(s.is_interested(&bf_all));
    // Once everything is complete the peer stops being interesting.
    s.set_block(0, 0);
    s.piece_verified(0, true);
    s.set_block(1, 0);
    s.piece_verified(1, true);
    assert!(!s.is_interested(&bf_all));
    // Eviction empties the peer sets.
    s.remove_peer_count(&x);
    assert!(s.pieces[0].peers.is_empty());
    assert!(s.pieces[1].peers.is_empty());
}
