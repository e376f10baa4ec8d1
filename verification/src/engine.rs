//! Per-peer protocol state and the message dispatcher.
//!
//! The engine holds every live peer's protocol flags and advertised bitfield
//! beside the piece scheduler, and turns one inbound message into the state
//! change and outbound work the peer-wire protocol asks for.  It performs no
//! I/O itself: the surrounding process feeds it decoded messages and carries
//! out the returned actions (sending frames, persisting blocks, hashing
//! piece bytes, dropping connections).

use vstd::prelude::*;

use crate::bitfield::{spec_from_bytes, Bitfield};
use crate::message::{spec_be32, spec_u32_be, Message, MessageId};
use crate::pieces::{
    has_peer,
    requested_by_is,
    sched_add_count,
    sched_add_have,
    sched_remove_peer,
    sched_reset_requests,
    sched_schedule,
    sched_set_block,
    PieceScheduler,
    BLOCK_SIZE,
};

verus! {

/// One live connection's protocol state: the peer's identity, its advertised
/// bitfield (absent until a BITFIELD or first HAVE arrives), and the four
/// choking/interest flags, initially choking both ways and interested
/// neither way.
pub struct PeerState {
    pub peer_id: Vec<u8>,
    pub bitfield: Option<Bitfield>,
    pub am_choking: bool,
    pub am_interested: bool,
    pub peer_choking: bool,
    pub peer_interested: bool,
}

/// Work the dispatcher hands back to the process around it.
pub enum Action {
    /// Enqueue this message for that peer.
    Send { peer_id: Vec<u8>, message: Message },
    /// Drop the connection and forget the peer.
    Evict { peer_id: Vec<u8> },
    /// Persist the block bytes that arrived with the message.
    SaveBlock { piece_index: u32, begin: u32 },
    /// Read the piece's bytes back, hash them, and report through
    /// `piece_verified`.
    VerifyPiece { piece_index: u32 },
}

/// The swarm engine: the live peers and the shared scheduler.
pub struct Engine {
    pub peers: Vec<PeerState>,
    pub scheduler: PieceScheduler,
}

/// The peers' identity bytes, in order.
pub open spec fn peer_id_list(peers: Seq<PeerState>) -> Seq<Vec<u8>> {
    peers.map_values(|p: PeerState| p.peer_id)
}

/// Whether some live peer carries this identity.
pub open spec fn has_engine_peer(peers: Seq<PeerState>, id: Seq<u8>) -> bool {
    exists|k: int| 0 <= k < peers.len() && (#[trigger] peers[k]).peer_id@ == id
}

/// The index of the live peer with this identity.
pub open spec fn peer_index(peers: Seq<PeerState>, id: Seq<u8>) -> int {
    choose|k: int| 0 <= k < peers.len() && (#[trigger] peers[k]).peer_id@ == id
}

/// `post` is `pre` with the peer at `k` replaced.
pub open spec fn peers_updated(
    pre: Seq<PeerState>,
    post: Seq<PeerState>,
    k: int,
    np: PeerState,
) -> bool {
    &&& post.len() == pre.len()
    &&& 0 <= k < pre.len()
    &&& post[k] == np
    &&& forall|q: int| 0 <= q < pre.len() && q != k ==> post[q] == pre[q]
}

/// The peer advertising bits `bf` has a piece we have not completed.
pub open spec fn spec_interested(s: PieceScheduler, bf: Seq<bool>) -> bool {
    exists|i: int| 0 <= i < s.pieces@.len() && bf[i] && !(#[trigger] s.pieces@[i]).completed
}

/// The bits a peer has advertised so far: all zero until a bitfield exists.
pub open spec fn peer_bits(p: PeerState, n: int) -> Seq<bool> {
    if p.bitfield is Some {
        p.bitfield.unwrap()@
    } else {
        Seq::new(n as nat, |i: int| false)
    }
}

/// The action sends that one message to that peer.
pub open spec fn is_send(a: Action, id: Seq<u8>, mid: u8, payload: Seq<u8>) -> bool {
    match a {
        Action::Send { peer_id, message } => peer_id@ == id && message@ == (mid, payload)
            && message.wf(),
        _ => false,
    }
}

/// The action evicts that peer.
pub open spec fn is_evict(a: Action, id: Seq<u8>) -> bool {
    match a {
        Action::Evict { peer_id } => peer_id@ == id,
        _ => false,
    }
}

/// The action persists that block.
pub open spec fn is_save(a: Action, piece_index: u32, begin: u32) -> bool {
    match a {
        Action::SaveBlock { piece_index: p, begin: b } => p == piece_index && b == begin,
        _ => false,
    }
}

/// The action asks for that piece to be hash-verified.
pub open spec fn is_verify(a: Action, piece_index: u32) -> bool {
    match a {
        Action::VerifyPiece { piece_index: p } => p == piece_index,
        _ => false,
    }
}

/// Eviction cleanup: the peer is gone from the live set, every other peer is
/// kept, the peer is out of every piece's peer set, and every block it had
/// in flight is reset.
pub open spec fn evict_cleanup(pre: Engine, post: Engine, id: Seq<u8>) -> bool {
    &&& !has_engine_peer(post.peers@, id)
    &&& forall|q: Seq<u8>|
        q != id ==> #[trigger] has_engine_peer(post.peers@, q) == has_engine_peer(pre.peers@, q)
    &&& exists|mid: PieceScheduler|
        #[trigger] sched_remove_peer(pre.scheduler, mid, id) && sched_reset_requests(
            mid,
            post.scheduler,
            id,
        )
    &&& forall|i: int|
        0 <= i < post.scheduler.pieces@.len() ==> !has_peer(
            #[trigger] post.scheduler.pieces@[i],
            id,
        )
    &&& forall|i: int, j: int|
        0 <= i < post.scheduler.pieces@.len() && 0 <= j
            < post.scheduler.pieces@[i].blocks@.len() ==> !requested_by_is(
            #[trigger] post.scheduler.pieces@[i].blocks@[j],
            id,
        )
}


/// CHOKE: the peer now chokes us; its outstanding REQUESTs are void and the
/// blocks they covered are reset for rescheduling.
pub open spec fn choke_effect(pre: Engine, post: Engine, id: Seq<u8>, k: int, acts: Seq<Action>) -> bool {
    &&& peers_updated(pre.peers@, post.peers@, k, PeerState { peer_choking: true, ..pre.peers@[k] })
    &&& sched_reset_requests(pre.scheduler, post.scheduler, id)
    &&& acts.len() == 0
}

/// UNCHOKE: the peer now serves us; a block is scheduled and requested, or,
/// with nothing to ask of this peer, NOT-INTERESTED goes out.
pub open spec fn unchoke_effect(pre: Engine, post: Engine, id: Seq<u8>, k: int, acts: Seq<Action>) -> bool {
    exists|r: Option<(u32, u32, u32)>|
        #[trigger] sched_schedule(pre.scheduler, post.scheduler, id, r) && (match r {
            Some((pi, b, l)) => peers_updated(
                pre.peers@,
                post.peers@,
                k,
                PeerState { peer_choking: false, ..pre.peers@[k] },
            ) && acts.len() == 1 && is_send(
                acts[0],
                id,
                6,
                spec_be32(pi) + spec_be32(b) + spec_be32(l),
            ),
            None => peers_updated(
                pre.peers@,
                post.peers@,
                k,
                PeerState { peer_choking: false, am_interested: false, ..pre.peers@[k] },
            ) && acts.len() == 1 && is_send(acts[0], id, 3, Seq::<u8>::empty()),
        })
}

/// INTERESTED: noted; we keep choking (no upload support).
pub open spec fn interested_effect(pre: Engine, post: Engine, k: int, acts: Seq<Action>) -> bool {
    &&& peers_updated(
        pre.peers@,
        post.peers@,
        k,
        PeerState { peer_interested: true, ..pre.peers@[k] },
    )
    &&& post.scheduler == pre.scheduler
    &&& acts.len() == 0
}

/// NOT-INTERESTED: noted, and we choke the peer.
pub open spec fn not_interested_effect(pre: Engine, post: Engine, k: int, acts: Seq<Action>) -> bool {
    &&& peers_updated(
        pre.peers@,
        post.peers@,
        k,
        PeerState { peer_interested: false, am_choking: true, ..pre.peers@[k] },
    )
    &&& post.scheduler == pre.scheduler
    &&& acts.len() == 0
}

/// The engine evicted the peer and handed back exactly the Evict action.
pub open spec fn evicted_effect(pre: Engine, post: Engine, id: Seq<u8>, acts: Seq<Action>) -> bool {
    &&& evict_cleanup(pre, post, id)
    &&& acts.len() == 1
    &&& is_evict(acts[0], id)
}

/// HAVE: a malformed payload or an out-of-range index evicts the peer;
/// otherwise the peer's bit is set (on a lazily created all-zero bitfield if
/// none was advertised yet), the peer joins that piece's peer set, and
/// INTERESTED goes out when the peer just became interesting.
pub open spec fn have_effect(
    pre: Engine,
    post: Engine,
    id: Seq<u8>,
    k: int,
    payload: Seq<u8>,
    acts: Seq<Action>,
) -> bool {
    let n = pre.scheduler.pieces@.len() as int;
    if payload.len() != 4 {
        evicted_effect(pre, post, id, acts)
    } else {
        let idx = spec_u32_be(payload[0], payload[1], payload[2], payload[3]);
        if idx >= n {
            evicted_effect(pre, post, id, acts)
        } else {
            let pk = pre.peers@[k];
            let bfnew = peer_bits(pk, n).update(idx as int, true);
            let now = spec_interested(post.scheduler, bfnew);
            let newly = now && !pk.am_interested;
            &&& sched_add_have(pre.scheduler, post.scheduler, id, idx as int)
            &&& post.peers@.len() == pre.peers@.len()
            &&& forall|q: int|
                0 <= q < pre.peers@.len() && q != k ==> #[trigger] post.peers@[q] == pre.peers@[q]
            &&& ({
                let np = post.peers@[k];
                np.peer_id == pk.peer_id && np.am_choking == pk.am_choking && np.peer_choking
                    == pk.peer_choking && np.peer_interested == pk.peer_interested
                    && np.bitfield is Some && np.bitfield.unwrap()@ == bfnew && np.am_interested
                    == (pk.am_interested || now)
            })
            &&& if newly {
                acts.len() == 1 && is_send(acts[0], id, 2, Seq::<u8>::empty())
            } else {
                acts.len() == 0
            }
        }
    }
}

/// BITFIELD: a payload of any length but `ceil(N / 8)` evicts the peer;
/// otherwise the bitfield is stored, the peer joins the peer set of every
/// piece it marks, and INTERESTED or NOT-INTERESTED goes out by whether the
/// peer has a piece we still need.
pub open spec fn bitfield_effect(
    pre: Engine,
    post: Engine,
    id: Seq<u8>,
    k: int,
    payload: Seq<u8>,
    acts: Seq<Action>,
) -> bool {
    let n = pre.scheduler.pieces@.len() as int;
    if payload.len() != (n + 7) / 8 {
        evicted_effect(pre, post, id, acts)
    } else {
        let pk = pre.peers@[k];
        let bf = spec_from_bytes(payload, n as nat);
        let now = spec_interested(post.scheduler, bf);
        &&& sched_add_count(pre.scheduler, post.scheduler, id, bf)
        &&& post.peers@.len() == pre.peers@.len()
        &&& forall|q: int|
            0 <= q < pre.peers@.len() && q != k ==> #[trigger] post.peers@[q] == pre.peers@[q]
        &&& ({
            let np = post.peers@[k];
            np.peer_id == pk.peer_id && np.am_choking == pk.am_choking && np.peer_choking
                == pk.peer_choking && np.peer_interested == pk.peer_interested
                && np.bitfield is Some && np.bitfield.unwrap()@ == bf && np.am_interested == now
        })
        &&& acts.len() == 1
        &&& is_send(
            acts[0],
            id,
            if now {
                2u8
            } else {
                3u8
            },
            Seq::<u8>::empty(),
        )
    }
}

/// PIECE: a short or inconsistent payload evicts the peer; a block nobody
/// requested is dropped (a benign CANCEL race); otherwise the block is
/// recorded and persisted, the piece goes out for hash verification once its
/// blocks are all in, the next REQUEST goes out while the peer is not
/// choking us, and a change of interest is announced.
pub open spec fn piece_effect(
    pre: Engine,
    post: Engine,
    id: Seq<u8>,
    k: int,
    payload: Seq<u8>,
    acts: Seq<Action>,
) -> bool {
    let n = pre.scheduler.pieces@.len() as int;
    if payload.len() < 8 {
        evicted_effect(pre, post, id, acts)
    } else {
        let idx = spec_u32_be(payload[0], payload[1], payload[2], payload[3]);
        let begin = spec_u32_be(payload[4], payload[5], payload[6], payload[7]);
        let j = begin as int / (BLOCK_SIZE as int);
        if idx >= n || begin % BLOCK_SIZE != 0 || j >= pre.scheduler.pieces@[
            idx as int
        ].blocks@.len() || payload.len() - 8 != pre.scheduler.pieces@[idx as int].blocks@[
            j
        ].length {
            evicted_effect(pre, post, id, acts)
        } else if pre.scheduler.pieces@[idx as int].blocks@[j].requested_by is None {
            post == pre && acts.len() == 0
        } else {
            let pk = pre.peers@[k];
            if pk.peer_choking {
                exists|done: bool|
                    #[trigger] sched_set_block(pre.scheduler, post.scheduler, idx as int, begin, done)
                        && piece_followup(pre, post, id, k, idx, begin, done, None, acts)
            } else {
                exists|done: bool, mid: PieceScheduler, r: Option<(u32, u32, u32)>|
                    #![trigger sched_set_block(pre.scheduler, mid, idx as int, begin, done), sched_schedule(mid, post.scheduler, id, r)]
                    sched_set_block(pre.scheduler, mid, idx as int, begin, done) && sched_schedule(
                        mid,
                        post.scheduler,
                        id,
                        r,
                    ) && piece_followup(pre, post, id, k, idx, begin, done, r, acts)
            }
        }
    }
}

/// What follows an accepted PIECE: the peer-state interest update and the
/// exact action list, in order — persist, verify when the piece is full, the
/// next request when one was scheduled, then any interest change.
pub open spec fn piece_followup(
    pre: Engine,
    post: Engine,
    id: Seq<u8>,
    k: int,
    idx: u32,
    begin: u32,
    done: bool,
    r: Option<(u32, u32, u32)>,
    acts: Seq<Action>,
) -> bool {
    let pk = pre.peers@[k];
    let now = if pk.bitfield is Some {
        spec_interested(post.scheduler, pk.bitfield.unwrap()@)
    } else {
        pk.am_interested
    };
    let changed = now != pk.am_interested;
    let base = 1 + (if done {
        1int
    } else {
        0int
    });
    let reqn: int = match r {
        Some(_) => 1,
        None => 0,
    };
    &&& peers_updated(pre.peers@, post.peers@, k, PeerState { am_interested: now, ..pk })
    &&& acts.len() == base + reqn + (if changed {
        1int
    } else {
        0int
    })
    &&& is_save(acts[0], idx, begin)
    &&& (done ==> is_verify(acts[1], idx))
    &&& (match r {
        Some((pi, b2, l2)) => is_send(
            acts[base],
            id,
            6,
            spec_be32(pi) + spec_be32(b2) + spec_be32(l2),
        ),
        None => true,
    })
    &&& (changed ==> is_send(
        acts[base + reqn],
        id,
        if now {
            2u8
        } else {
            3u8
        },
        Seq::<u8>::empty(),
    ))
}

impl Engine {
    /// Every peer id is unique and every advertised bitfield matches the
    /// piece count; the scheduler is itself well-formed.
    pub open spec fn wf(self) -> bool {
        &&& self.scheduler.wf()
        &&& crate::util::no_dup_ids(peer_id_list(self.peers@))
        &&& forall|k: int|
            0 <= k < self.peers@.len() ==> ((#[trigger] self.peers@[k]).bitfield is Some
                ==> self.peers@[k].bitfield.unwrap()@.len() == self.scheduler.pieces@.len())
    }

    /// An engine over a fresh scheduler, with no peers yet.
    pub fn new(scheduler: PieceScheduler) -> (r: Engine)
        requires
            scheduler.wf(),
        ensures
            r.wf(),
            r.scheduler == scheduler,
            r.peers@.len() == 0,
    {
        let r = Engine { peers: Vec::new(), scheduler };
        proof {
            assert(peer_id_list(r.peers@) =~= Seq::<Vec<u8>>::empty());
            assert(crate::util::id_seq(peer_id_list(r.peers@)) =~= Seq::<Seq<u8>>::empty());
        }
        r
    }

    /// The index of the live peer with this identity, if any.
    fn find_peer(&self, peer_id: &Vec<u8>) -> (r: Option<usize>)
        ensures
            match r {
                Some(k) => k < self.peers@.len() && self.peers@[k as int].peer_id@ == peer_id@,
                None => !has_engine_peer(self.peers@, peer_id@),
            },
    {
        let mut k: usize = 0;
        while k < self.peers.len()
            invariant
                k <= self.peers@.len(),
                forall|q: int| 0 <= q < k ==> (#[trigger] self.peers@[q]).peer_id@ != peer_id@,
            decreases self.peers@.len() - k,
        {
            if crate::util::bytes_eq(&self.peers[k].peer_id, peer_id) {
                return Some(k);
            }
            k = k + 1;
        }
        None
    }

    /// Admits a freshly handshaken peer, with the initial flags (we choke, it
    /// chokes, nobody is interested) and no bitfield.  Returns false, and
    /// changes nothing, when a peer with that identity is already live.
    pub fn add_peer(&mut self, peer_id: &Vec<u8>) -> (r: bool)
        requires
            old(self).wf(),
        ensures
            final(self).wf(),
            final(self).scheduler == old(self).scheduler,
            r == !has_engine_peer(old(self).peers@, peer_id@),
            !r ==> *final(self) == *old(self),
            r ==> final(self).peers@.len() == old(self).peers@.len() + 1 && (forall|q: int|
                0 <= q < old(self).peers@.len() ==> #[trigger] final(self).peers@[q] == old(
                    self,
                ).peers@[q]) && ({
                let np = final(self).peers@[old(self).peers@.len() as int];
                np.peer_id@ == peer_id@ && np.bitfield is None && np.am_choking
                    && !np.am_interested && np.peer_choking && !np.peer_interested
            }),
    {
        match self.find_peer(peer_id) {
            Some(_) => false,
            None => {
                let np = PeerState {
                    peer_id: peer_id.clone(),
                    bitfield: None,
                    am_choking: true,
                    am_interested: false,
                    peer_choking: true,
                    peer_interested: false,
                };
                self.peers.push(np);
                proof {
                    let pl_old = peer_id_list(old(self).peers@);
                    let pl_new = peer_id_list(self.peers@);
                    assert(pl_new =~= pl_old.push(self.peers@.last().peer_id));
                    let io = crate::util::id_seq(pl_old);
                    let iw = crate::util::id_seq(pl_new);
                    assert(iw =~= io.push(peer_id@));
                    assert(!io.contains(peer_id@)) by {
                        if io.contains(peer_id@) {
                            let k = choose|k: int| 0 <= k < io.len() && io[k] == peer_id@;
                            assert(old(self).peers@[k].peer_id@ == peer_id@);
                            assert(has_engine_peer(old(self).peers@, peer_id@));
                        }
                    }
                    assert forall|k1: int, k2: int| 0 <= k1 < k2 < iw.len() implies iw[k1]
                        != iw[k2] by {
                        if k2 < io.len() {
                            crate::util::lemma_no_dup_index(pl_old, k1, k2);
                        } else {
                            assert(iw[k2] == peer_id@);
                            assert(iw[k1] == io[k1]);
                        }
                    }
                    assert(has_engine_peer(old(self).peers@, peer_id@) == false);
                    assert(self.peers@[old(self).peers@.len() as int].peer_id@ == peer_id@);
                }
                true
            },
        }
    }

    /// Evicts a peer: forgets its state, clears it out of every piece's peer
    /// set, and resets every block it had in flight so the blocks can be
    /// scheduled again.
    pub fn remove_peer(&mut self, peer_id: &Vec<u8>)
        requires
            old(self).wf(),
        ensures
            final(self).wf(),
            evict_cleanup(*old(self), *final(self), peer_id@),
            final(self).peers@.len() >= old(self).peers@.len() - 1,
    {
        let found = self.find_peer(peer_id);
        match found {
            Some(k) => {
                let ghost pl_old = peer_id_list(self.peers@);
                self.peers.remove(k);
                proof {
                    pl_old.remove_ensures(k as int);
                    let pl_new = peer_id_list(self.peers@);
                    assert forall|q: int| 0 <= q < pl_new.len() implies pl_new[q] == (if q < k {
                        pl_old[q]
                    } else {
                        pl_old[q + 1]
                    }) by {
                        assert(self.peers@[q] == (if q < k {
                            old(self).peers@[q]
                        } else {
                            old(self).peers@[q + 1]
                        }));
                    }
                    let io = crate::util::id_seq(pl_old);
                    let iw = crate::util::id_seq(pl_new);
                    assert(iw.len() == io.len() - 1);
                    assert forall|q: int| 0 <= q < iw.len() implies iw[q] == (if q < k {
                        io[q]
                    } else {
                        io[q + 1]
                    }) by {
                        assert(pl_new[q] == (if q < k {
                            pl_old[q]
                        } else {
                            pl_old[q + 1]
                        }));
                    }
                    assert forall|k1: int, k2: int| 0 <= k1 < k2 < iw.len() implies iw[k1]
                        != iw[k2] by {
                        let a: int = if k1 < k {
                            k1
                        } else {
                            k1 + 1
                        };
                        let b: int = if k2 < k {
                            k2
                        } else {
                            k2 + 1
                        };
                        assert(iw[k1] == io[a]);
                        assert(iw[k2] == io[b]);
                        crate::util::lemma_no_dup_index(pl_old, a, b);
                    }
                    assert(!has_engine_peer(self.peers@, peer_id@)) by {
                        if has_engine_peer(self.peers@, peer_id@) {
                            let q = choose|q: int|
                                0 <= q < self.peers@.len() && (#[trigger] self.peers@[
                                    q
                                ]).peer_id@ == peer_id@;
                            if q < k {
                                assert(old(self).peers@[q].peer_id@ == peer_id@);
                                crate::util::lemma_no_dup_index(pl_old, q, k as int);
                                assert(io[q] == peer_id@ && io[k as int] == peer_id@);
                                assert(false);
                            } else {
                                assert(old(self).peers@[q + 1].peer_id@ == peer_id@);
                                crate::util::lemma_no_dup_index(pl_old, k as int, q + 1);
                                assert(io[q + 1] == peer_id@ && io[k as int] == peer_id@);
                                assert(false);
                            }
                        }
                    }
                    assert forall|q: Seq<u8>| q != peer_id@ implies #[trigger] has_engine_peer(
                        self.peers@,
                        q,
                    ) == has_engine_peer(old(self).peers@, q) by {
                        if has_engine_peer(old(self).peers@, q) {
                            let w = choose|w: int|
                                0 <= w < old(self).peers@.len() && (#[trigger] old(self).peers@[
                                    w
                                ]).peer_id@ == q;
                            assert(w != k);
                            if w < k {
                                assert(self.peers@[w].peer_id@ == q);
                            } else {
                                assert(self.peers@[w - 1].peer_id@ == q);
                            }
                        }
                        if has_engine_peer(self.peers@, q) {
                            let w = choose|w: int|
                                0 <= w < self.peers@.len() && (#[trigger] self.peers@[
                                    w
                                ]).peer_id@ == q;
                            if w < k {
                                assert(old(self).peers@[w].peer_id@ == q);
                            } else {
                                assert(old(self).peers@[w + 1].peer_id@ == q);
                            }
                        }
                    }
                }
            },
            None => {
                proof {
                    assert forall|q: Seq<u8>| q != peer_id@ implies #[trigger] has_engine_peer(
                        self.peers@,
                        q,
                    ) == has_engine_peer(old(self).peers@, q) by {}
                }
            },
        }
        let ghost pre_sched = self.scheduler;
        self.scheduler.remove_peer_count(peer_id);
        let ghost mid_sched = self.scheduler;
        self.scheduler.reset_peer_requests(peer_id);
        proof {
            assert(sched_remove_peer(pre_sched, mid_sched, peer_id@));
            assert(sched_reset_requests(mid_sched, self.scheduler, peer_id@));
            assert forall|i: int| 0 <= i < self.scheduler.pieces@.len() implies !has_peer(
                #[trigger] self.scheduler.pieces@[i],
                peer_id@,
            ) by {
                assert(!has_peer(mid_sched.pieces@[i], peer_id@));
                assert(self.scheduler.pieces@[i].peers == mid_sched.pieces@[i].peers);
            }
            assert forall|i: int, j: int|
                0 <= i < self.scheduler.pieces@.len() && 0 <= j < self.scheduler.pieces@[
                    i
                ].blocks@.len() implies !requested_by_is(
                #[trigger] self.scheduler.pieces@[i].blocks@[j],
                peer_id@,
            ) by {
                assert(self.scheduler.pieces@[i].blocks@[j] == (if requested_by_is(
                    mid_sched.pieces@[i].blocks@[j],
                    peer_id@,
                ) {
                    crate::pieces::Block {
                        requested_by: None,
                        ..mid_sched.pieces@[i].blocks@[j]
                    }
                } else {
                    mid_sched.pieces@[i].blocks@[j]
                }));
            }
        }
    }
}


impl Engine {
    /// Evicts the peer and hands back the matching action.
    fn evict_peer(&mut self, peer_id: &Vec<u8>) -> (r: Vec<Action>)
        requires
            old(self).wf(),
        ensures
            final(self).wf(),
            evicted_effect(*old(self), *final(self), peer_id@, r@),
    {
        self.remove_peer(peer_id);
        let mut acts: Vec<Action> = Vec::new();
        acts.push(Action::Evict { peer_id: peer_id.clone() });
        acts
    }

    /// Dispatches one inbound message from a peer: updates that peer's state
    /// and the scheduler as the protocol asks, and returns the outbound work.
    /// A message from a peer that is no longer live is discarded whole.
    #[verifier::rlimit(100)]
    pub fn handle_message(&mut self, peer_id: &Vec<u8>, msg: &Message) -> (r: Vec<Action>)
        requires
            old(self).wf(),
            msg@.0 <= 10,
        ensures
            final(self).wf(),
            !has_engine_peer(old(self).peers@, peer_id@) ==> *final(self) == *old(self) && r@.len()
                == 0,
            has_engine_peer(old(self).peers@, peer_id@) ==> ({
                let k = peer_index(old(self).peers@, peer_id@);
                &&& (msg@.0 == 0 ==> choke_effect(*old(self), *final(self), peer_id@, k, r@))
                &&& (msg@.0 == 1 ==> unchoke_effect(*old(self), *final(self), peer_id@, k, r@))
                &&& (msg@.0 == 2 ==> interested_effect(*old(self), *final(self), k, r@))
                &&& (msg@.0 == 3 ==> not_interested_effect(*old(self), *final(self), k, r@))
                &&& (msg@.0 == 4 ==> have_effect(*old(self), *final(self), peer_id@, k, msg@.1, r@))
                &&& (msg@.0 == 5 ==> bitfield_effect(
                    *old(self),
                    *final(self),
                    peer_id@,
                    k,
                    msg@.1,
                    r@,
                ))
                &&& (msg@.0 == 7 ==> piece_effect(*old(self), *final(self), peer_id@, k, msg@.1, r@))
                &&& ((msg@.0 == 6 || msg@.0 == 8 || msg@.0 == 9 || msg@.0 == 10) ==> *final(self)
                    == *old(self) && r@.len() == 0)
            }),
    {
        let found = self.find_peer(peer_id);
        let k = match found {
            None => {
                return Vec::new();
            },
            Some(k) => k,
        };
        proof {
            let kk = peer_index(self.peers@, peer_id@);
            assert(has_engine_peer(self.peers@, peer_id@));
            if kk != k as int {
                let pl = peer_id_list(self.peers@);
                let a: int = if kk < k as int {
                    kk
                } else {
                    k as int
                };
                let b: int = if kk < k as int {
                    k as int
                } else {
                    kk
                };
                assert(pl[a] == self.peers@[a].peer_id);
                assert(pl[b] == self.peers@[b].peer_id);
                assert(crate::util::id_seq(pl)[a] == peer_id@);
                assert(crate::util::id_seq(pl)[b] == peer_id@);
                crate::util::lemma_no_dup_index(pl, a, b);
                assert(false);
            }
        }
        let mid = msg.get_id();
        match mid {
            MessageId::Choke => {
                self.peers[k].peer_choking = true;
                self.scheduler.reset_peer_requests(peer_id);
                proof {
                    assert(peer_id_list(self.peers@) =~= peer_id_list(old(self).peers@));
                }
                Vec::new()
            },
            MessageId::Unchoke => {
                self.peers[k].peer_choking = false;
                let res = self.scheduler.schedule_piece(peer_id);
                proof {
                    assert(peer_id_list(self.peers@) =~= peer_id_list(old(self).peers@));
                }
                let mut acts: Vec<Action> = Vec::new();
                match res {
                    Some((pi, b, l)) => {
                        let payload = crate::message::request_payload(pi, b, l);
                        let m = Message::new(MessageId::Request, &payload);
                        acts.push(Action::Send { peer_id: peer_id.clone(), message: m });
                    },
                    None => {
                        self.peers[k].am_interested = false;
                        let empty: Vec<u8> = Vec::new();
                        let m = Message::new(MessageId::NotInterested, &empty);
                        acts.push(Action::Send { peer_id: peer_id.clone(), message: m });
                    },
                }
                proof {
                    assert(sched_schedule(
                        old(self).scheduler,
                        self.scheduler,
                        peer_id@,
                        res,
                    ));
                    assert(peer_id_list(self.peers@) =~= peer_id_list(old(self).peers@));
                }
                acts
            },
            MessageId::Interested => {
                self.peers[k].peer_interested = true;
                proof {
                    assert(peer_id_list(self.peers@) =~= peer_id_list(old(self).peers@));
                }
                Vec::new()
            },
            MessageId::NotInterested => {
                self.peers[k].peer_interested = false;
                self.peers[k].am_choking = true;
                proof {
                    assert(peer_id_list(self.peers@) =~= peer_id_list(old(self).peers@));
                }
                Vec::new()
            },
            MessageId::Have => {
                let payload = msg.get_payload();
                let parsed = crate::message::parse_have_payload(payload);
                match parsed {
                    None => self.evict_peer(peer_id),
                    Some(idx) => {
                        let n = self.scheduler.len();
                        if (idx as u64) >= (n as u64) {
                            self.evict_peer(peer_id)
                        } else {
                            let iu = idx as usize;
                            let ghost bfpre = peer_bits(
                                self.peers@[k as int],
                                self.scheduler.pieces@.len() as int,
                            );
                            if self.peers[k].bitfield.is_none() {
                                let fresh = Bitfield::new(n);
                                self.peers[k].bitfield = Some(fresh);
                            }
                            assert(self.peers@[k as int].bitfield.unwrap()@ == bfpre);
                            match &mut self.peers[k].bitfield {
                                Some(bf) => {
                                    let set_result = bf.set(iu, true);
                                    assert(set_result is Ok);
                                },
                                None => {},
                            }
                            assert(self.peers@[k as int].bitfield.unwrap()@ == bfpre.update(
                                iu as int,
                                true,
                            ));
                            self.scheduler.add_peer_have(peer_id, iu);
                            let mut acts: Vec<Action> = Vec::new();
                            let now = match &self.peers[k].bitfield {
                                Some(bf) => self.scheduler.is_interested(bf),
                                None => false,
                            };
                            if now && !self.peers[k].am_interested {
                                self.peers[k].am_interested = true;
                                let empty: Vec<u8> = Vec::new();
                                let m = Message::new(MessageId::Interested, &empty);
                                acts.push(Action::Send { peer_id: peer_id.clone(), message: m });
                            }
                            proof {
                                assert(peer_id_list(self.peers@) =~= peer_id_list(
                                    old(self).peers@,
                                ));
                            }
                            acts
                        }
                    },
                }
            },
            MessageId::Bitfield => {
                let payload = msg.get_payload();
                let n = self.scheduler.len();
                let expect = n / 8 + if n % 8 == 0 {
                    0
                } else {
                    1
                };
                assert(expect == ((n as int) + 7) / 8);
                if payload.len() != expect {
                    self.evict_peer(peer_id)
                } else {
                    let bf = Bitfield::from_bytes(payload, n);
                    self.scheduler.add_peer_count(peer_id, &bf);
                    let now = self.scheduler.is_interested(&bf);
                    self.peers[k].am_interested = now;
                    self.peers[k].bitfield = Some(bf);
                    let mut acts: Vec<Action> = Vec::new();
                    let empty: Vec<u8> = Vec::new();
                    let m = if now {
                        Message::new(MessageId::Interested, &empty)
                    } else {
                        Message::new(MessageId::NotInterested, &empty)
                    };
                    acts.push(Action::Send { peer_id: peer_id.clone(), message: m });
                    proof {
                        assert(peer_id_list(self.peers@) =~= peer_id_list(old(self).peers@));
                    }
                    acts
                }
            },
            MessageId::Piece => {
                let payload = msg.get_payload();
                let parsed = crate::message::parse_piece_header(payload);
                match parsed {
                    None => self.evict_peer(peer_id),
                    Some((idx, begin)) => {
                        let n = self.scheduler.len();
                        if (idx as u64) >= (n as u64) {
                            self.evict_peer(peer_id)
                        } else if begin % BLOCK_SIZE != 0 {
                            self.evict_peer(peer_id)
                        } else {
                            let iu = idx as usize;
                            let j = (begin / BLOCK_SIZE) as usize;
                            if j >= self.pieces_blocks_len(iu) {
                                self.evict_peer(peer_id)
                            } else {
                                let blen = self.scheduler.pieces[iu].blocks[j].length;
                                if (payload.len() - 8) as u64 != blen as u64 {
                                    self.evict_peer(peer_id)
                                } else if self.scheduler.pieces[iu].blocks[
                                    j
                                ].requested_by.is_none() {
                                    Vec::new()
                                } else {
                                    let done = self.scheduler.set_block(iu, begin);
                                    let ghost midsched = self.scheduler;
                                    let mut acts: Vec<Action> = Vec::new();
                                    acts.push(Action::SaveBlock { piece_index: idx, begin });
                                    if done {
                                        acts.push(Action::VerifyPiece { piece_index: idx });
                                    }
                                    let res: Option<(u32, u32, u32)> = if !self.peers[
                                        k
                                    ].peer_choking {
                                        self.scheduler.schedule_piece(peer_id)
                                    } else {
                                        None
                                    };
                                    if let Some((pi, b2, l2)) = res {
                                        let payload2 = crate::message::request_payload(pi, b2, l2);
                                        let m = Message::new(MessageId::Request, &payload2);
                                        acts.push(
                                            Action::Send { peer_id: peer_id.clone(), message: m },
                                        );
                                    }
                                    let oldint = self.peers[k].am_interested;
                                    let now = match &self.peers[k].bitfield {
                                        Some(bf) => self.scheduler.is_interested(bf),
                                        None => oldint,
                                    };
                                    if now != oldint {
                                        self.peers[k].am_interested = now;
                                        let empty: Vec<u8> = Vec::new();
                                        let m = if now {
                                            Message::new(MessageId::Interested, &empty)
                                        } else {
                                            Message::new(MessageId::NotInterested, &empty)
                                        };
                                        acts.push(
                                            Action::Send { peer_id: peer_id.clone(), message: m },
                                        );
                                    }
                                    proof {
                                        assert(peer_id_list(self.peers@) =~= peer_id_list(
                                            old(self).peers@,
                                        ));
                                        assert(sched_set_block(
                                            old(self).scheduler,
                                            midsched,
                                            iu as int,
                                            begin,
                                            done,
                                        ));
                                        if !old(self).peers@[k as int].peer_choking {
                                            assert(sched_schedule(
                                                midsched,
                                                self.scheduler,
                                                peer_id@,
                                                res,
                                            ));
                                        } else {
                                            assert(self.scheduler == midsched);
                                        }
                                        assert(piece_followup(
                                            *old(self),
                                            *self,
                                            peer_id@,
                                            k as int,
                                            idx,
                                            begin,
                                            done,
                                            res,
                                            acts@,
                                        ));
                                    }
                                    acts
                                }
                            }
                        }
                    },
                }
            },
            MessageId::Request => Vec::new(),
            MessageId::Cancel => Vec::new(),
            MessageId::Port => Vec::new(),
            MessageId::KeepAlive => Vec::new(),
        }
    }

    /// The number of blocks piece `i` has.
    fn pieces_blocks_len(&self, i: usize) -> (r: usize)
        requires
            i < self.scheduler.pieces@.len(),
        ensures
            r == self.scheduler.pieces@[i as int].blocks@.len(),
    {
        self.scheduler.pieces[i].blocks.len()
    }
}

} // verus!
