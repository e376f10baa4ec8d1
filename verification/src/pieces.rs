//! Piece and block bookkeeping, and the request scheduler.
//!
//! Tracks, for every piece, its expected hash, its blocks' `requested` /
//! `completed` state, and the set of peers known to hold it; answers "what
//! should this peer request next" under the random-first-piece warm-up and
//! the rarest-first steady state; and ingests completed blocks.

use vstd::arithmetic::div_mod::{
    lemma_fundamental_div_mod,
    lemma_fundamental_div_mod_converse,
    lemma_mod_bound,
};
use vstd::arithmetic::mul::{group_mul_is_commutative_and_distributive, lemma_mul_inequality};
use vstd::prelude::*;

use crate::bitfield::Bitfield;

verus! {

/// `(a + 1) * b == a * b + b`, pulled out of the nonlinear solver.
proof fn lemma_mul_succ(a: int, b: int)
    ensures
        (a + 1) * b == a * b + b,
{
    broadcast use group_mul_is_commutative_and_distributive;

}

/// The fixed transfer block size: 16 KiB.
pub const BLOCK_SIZE: u32 = 16384;

/// One block of a piece: its offset and length within the piece, whether its
/// bytes have been received, and which peer (if any) has an outstanding
/// REQUEST for it.
#[derive(Debug)]
pub struct Block {
    pub begin: u32,
    pub length: u32,
    pub completed: bool,
    pub requested_by: Option<Vec<u8>>,
}

/// One piece: its position, expected 20-byte hash, blocks, completion flag,
/// and the ids of the peers known to have it.
#[derive(Debug)]
pub struct Piece {
    pub index: usize,
    pub hash: Vec<u8>,
    pub blocks: Vec<Block>,
    pub completed: bool,
    pub peers: Vec<Vec<u8>>,
}

/// The scheduler state: every piece, the configured sizes, and the sticky
/// flag that switches the policy from random warm-up to rarest-first.
#[derive(Debug)]
pub struct PieceScheduler {
    pub pieces: Vec<Piece>,
    pub piece_length: u32,
    pub total_size: u64,
    pub any_complete: bool,
}

/// How many pieces a torrent of this size has: `ceil(total / piece_length)`.
pub open spec fn num_pieces_of(total: u64, piece_length: u32) -> int {
    (total + piece_length - 1) / (piece_length as int)
}

/// The byte length of piece `i`: the piece length, except a shorter last piece.
pub open spec fn piece_len_of(total: u64, piece_length: u32, i: int) -> int {
    if (i + 1) * piece_length <= total {
        piece_length as int
    } else {
        total - i * piece_length
    }
}

/// How many blocks a piece of `plen` bytes has.
pub open spec fn num_blocks_of(plen: int) -> int {
    (plen + BLOCK_SIZE - 1) / (BLOCK_SIZE as int)
}

/// The byte length of block `j` in a piece of `plen` bytes.
pub open spec fn block_len_of(plen: int, j: int) -> int {
    if (j + 1) * BLOCK_SIZE <= plen {
        BLOCK_SIZE as int
    } else {
        plen - j * BLOCK_SIZE
    }
}

/// The peer ids a piece's peer set holds, as byte sequences.
pub open spec fn ids(p: Piece) -> Seq<Seq<u8>> {
    crate::util::id_seq(p.peers@)
}

/// Whether `id` is in the piece's peer set.
pub open spec fn has_peer(p: Piece, id: Seq<u8>) -> bool {
    ids(p).contains(id)
}

/// The peer set holds no id twice.
pub open spec fn peers_no_dup(p: Piece) -> bool {
    crate::util::no_dup_ids(p.peers@)
}

/// A block that is neither completed nor requested: free to schedule.
pub open spec fn block_open(b: Block) -> bool {
    !b.completed && b.requested_by is None
}

/// The block carries an outstanding REQUEST from exactly this peer.
pub open spec fn requested_by_is(b: Block, id: Seq<u8>) -> bool {
    b.requested_by is Some && b.requested_by.unwrap()@ == id
}

/// Some block of the piece is free to schedule.
pub open spec fn piece_has_open_block(p: Piece) -> bool {
    exists|j: int| 0 <= j < p.blocks@.len() && block_open(#[trigger] p.blocks@[j])
}

/// The structural invariant of one piece: blocks tile the piece in
/// `BLOCK_SIZE` steps with a possibly shorter last block, a completed block
/// carries no outstanding request, a completed piece has every block
/// completed, the hash is 20 bytes and the peer set has no duplicates.
pub open spec fn piece_wf(p: Piece, i: int, total: u64, piece_length: u32) -> bool {
    let plen = piece_len_of(total, piece_length, i);
    &&& p.index == i
    &&& p.hash@.len() == 20
    &&& p.blocks@.len() == num_blocks_of(plen)
    &&& forall|j: int|
        0 <= j < p.blocks@.len() ==> (#[trigger] p.blocks@[j]).begin == j * BLOCK_SIZE
            && p.blocks@[j].length == block_len_of(plen, j)
    &&& forall|j: int|
        0 <= j < p.blocks@.len() && (#[trigger] p.blocks@[j]).completed ==> p.blocks@[
            j
        ].requested_by is None
    &&& p.completed ==> forall|j: int|
        0 <= j < p.blocks@.len() ==> (#[trigger] p.blocks@[j]).completed
    &&& peers_no_dup(p)
}

/// Two pieces that differ at most in their blocks.
pub open spec fn same_but_blocks(p1: Piece, p2: Piece) -> bool {
    p1.index == p2.index && p1.hash == p2.hash && p1.completed == p2.completed && p1.peers
        == p2.peers
}

/// Two pieces that differ at most in their peer sets.
pub open spec fn same_but_peers(p1: Piece, p2: Piece) -> bool {
    p1.index == p2.index && p1.hash == p2.hash && p1.completed == p2.completed && p1.blocks
        == p2.blocks
}

/// Piece `i` is worth scheduling for peer `id`: not completed, has a free
/// block, and the peer is known to have it.
pub open spec fn candidate(s: PieceScheduler, i: int, id: Seq<u8>) -> bool {
    &&& 0 <= i < s.pieces@.len()
    &&& !s.pieces@[i].completed
    &&& piece_has_open_block(s.pieces@[i])
    &&& has_peer(s.pieces@[i], id)
}

impl PieceScheduler {
    /// The structural invariant of the whole scheduler.
    pub open spec fn wf(self) -> bool {
        &&& self.piece_length > 0
        &&& self.piece_length % BLOCK_SIZE == 0
        &&& self.pieces@.len() <= u32::MAX
        &&& self.pieces@.len() == num_pieces_of(self.total_size, self.piece_length)
        &&& forall|i: int|
            0 <= i < self.pieces@.len() ==> piece_wf(
                #[trigger] self.pieces@[i],
                i,
                self.total_size,
                self.piece_length,
            )
    }
}

/// `ceil(x / d)` facts used when tiling bytes into pieces and blocks.
proof fn lemma_ceil_div(x: int, d: int)
    requires
        d > 0,
        x >= 0,
    ensures
        (x + d - 1) / d >= 0,
        ((x + d - 1) / d) * d >= x,
        x > 0 ==> ((x + d - 1) / d - 1) * d <= x - 1,
        x > 0 ==> (x + d - 1) / d >= 1,
        x == 0 ==> (x + d - 1) / d == 0,
{
    broadcast use group_mul_is_commutative_and_distributive;

    lemma_fundamental_div_mod(x + d - 1, d);
    lemma_mod_bound(x + d - 1, d);
    let q = (x + d - 1) / d;
    let r = (x + d - 1) % d;
    assert(x + d - 1 == q * d + r);
    if x == 0 {
        lemma_fundamental_div_mod_converse(d - 1, d, 0, d - 1);
    }
    if x > 0 && q < 1 {
        assert(q * d <= 0) by (nonlinear_arith)
            requires
                q <= 0,
                d > 0,
        ;
        assert(false);
    }
}

impl PieceScheduler {
    /// A fresh scheduler over the given per-piece hashes and sizes: no piece
    /// or block completed, no request outstanding, every peer set empty, the
    /// policy flag off.
    pub fn new(piece_hashes: Vec<Vec<u8>>, piece_length: u32, total_size: u64) -> (r:
        PieceScheduler)
        requires
            piece_length > 0,
            piece_length % BLOCK_SIZE == 0,
            forall|k: int| 0 <= k < piece_hashes@.len() ==> (#[trigger] piece_hashes@[k])@.len() == 20,
            piece_hashes@.len() == num_pieces_of(total_size, piece_length),
            piece_hashes@.len() <= u32::MAX,
        ensures
            r.wf(),
            r.piece_length == piece_length,
            r.total_size == total_size,
            !r.any_complete,
            r.pieces@.len() == piece_hashes@.len(),
            forall|i: int|
                0 <= i < r.pieces@.len() ==> (#[trigger] r.pieces@[i]).hash@ == piece_hashes@[i]@
                    && !r.pieces@[i].completed && r.pieces@[i].peers@.len() == 0,
            forall|i: int, j: int|
                0 <= i < r.pieces@.len() && 0 <= j < r.pieces@[i].blocks@.len() ==> block_open(
                    #[trigger] r.pieces@[i].blocks@[j],
                ),
    {
        let n = piece_hashes.len();
        let mut pieces: Vec<Piece> = Vec::new();
        let mut i: usize = 0;
        while i < n
            invariant
                i <= n,
                n == piece_hashes@.len(),
                piece_length > 0,
                piece_length % BLOCK_SIZE == 0,
                forall|k: int|
                    0 <= k < piece_hashes@.len() ==> (#[trigger] piece_hashes@[k])@.len() == 20,
                n == num_pieces_of(total_size, piece_length),
                pieces@.len() == i,
                forall|k: int|
                    0 <= k < i ==> piece_wf(#[trigger] pieces@[k], k, total_size, piece_length),
                forall|k: int|
                    0 <= k < i ==> (#[trigger] pieces@[k]).hash@ == piece_hashes@[k]@ && !pieces@[
                        k
                    ].completed && pieces@[k].peers@.len() == 0,
                forall|k: int, j: int|
                    0 <= k < i && 0 <= j < pieces@[k].blocks@.len() ==> block_open(
                        #[trigger] pieces@[k].blocks@[j],
                    ),
            decreases n - i,
        {
            proof {
                lemma_ceil_div(total_size as int, piece_length as int);
                lemma_mul_inequality(i as int, n as int - 1, piece_length as int);
                lemma_mul_succ(i as int, piece_length as int);
            }
            assert(i * piece_length < total_size);
            let start: u64 = (i as u64) * (piece_length as u64);
            let rest: u64 = total_size - start;
            let plen: u32 = if (piece_length as u64) <= rest {
                piece_length
            } else {
                rest as u32
            };
            assert(plen == piece_len_of(total_size, piece_length, i as int));
            assert(plen > 0);
            let nb: u32 = plen / BLOCK_SIZE + if plen % BLOCK_SIZE == 0 {
                0
            } else {
                1
            };
            proof {
                lemma_ceil_div(plen as int, BLOCK_SIZE as int);
                lemma_fundamental_div_mod(plen as int, BLOCK_SIZE as int);
                lemma_fundamental_div_mod_converse(
                    plen as int + BLOCK_SIZE - 1,
                    BLOCK_SIZE as int,
                    plen as int / BLOCK_SIZE as int + if plen as int % BLOCK_SIZE as int == 0 {
                        0int
                    } else {
                        1int
                    },
                    if plen as int % BLOCK_SIZE as int == 0 {
                        BLOCK_SIZE as int - 1
                    } else {
                        plen as int % BLOCK_SIZE as int - 1
                    },
                );
            }
            assert(nb == num_blocks_of(plen as int));
            let mut blocks: Vec<Block> = Vec::new();
            let mut j: u32 = 0;
            while j < nb
                invariant
                    j <= nb,
                    0 < plen <= u32::MAX,
                    nb == num_blocks_of(plen as int),
                    blocks@.len() == j,
                    forall|q: int|
                        0 <= q < j ==> (#[trigger] blocks@[q]).begin == q * BLOCK_SIZE && blocks@[
                            q
                        ].length == block_len_of(plen as int, q) && block_open(blocks@[q]),
                decreases nb - j,
            {
                proof {
                    lemma_ceil_div(plen as int, BLOCK_SIZE as int);
                    lemma_mul_inequality(j as int, nb as int - 1, BLOCK_SIZE as int);
                }
                assert(j * BLOCK_SIZE < plen);
                let begin: u32 = j * BLOCK_SIZE;
                let remain: u32 = plen - begin;
                let blen: u32 = if remain < BLOCK_SIZE {
                    remain
                } else {
                    BLOCK_SIZE
                };
                assert(blen == block_len_of(plen as int, j as int));
                blocks.push(Block { begin, length: blen, completed: false, requested_by: None });
                j = j + 1;
            }
            let piece = Piece {
                index: i,
                hash: piece_hashes[i].clone(),
                blocks,
                completed: false,
                peers: Vec::new(),
            };
            assert(piece.hash@ == piece_hashes@[i as int]@);
            assert(piece_wf(piece, i as int, total_size, piece_length));
            pieces.push(piece);
            i = i + 1;
        }
        PieceScheduler { pieces, piece_length, total_size, any_complete: false }
    }

    /// The number of pieces.
    pub fn len(&self) -> (r: usize)
        ensures
            r == self.pieces@.len(),
    {
        self.pieces.len()
    }

    /// The local completion bitfield: bit `i` is piece `i`'s completion flag.
    pub fn to_bitfield(&self) -> (r: Bitfield)
        ensures
            r@.len() == self.pieces@.len(),
            forall|i: int| 0 <= i < self.pieces@.len() ==> r@[i] == self.pieces@[i].completed,
    {
        let mut bf = Bitfield::new(self.pieces.len());
        let mut i: usize = 0;
        while i < self.pieces.len()
            invariant
                i <= self.pieces@.len(),
                bf@.len() == self.pieces@.len(),
                forall|k: int| 0 <= k < i ==> bf@[k] == self.pieces@[k].completed,
            decreases self.pieces@.len() - i,
        {
            let c = self.pieces[i].completed;
            let set_result = bf.set(i, c);
            assert(set_result is Ok);
            i = i + 1;
        }
        bf
    }

    /// Whether the peer advertising this bitfield has at least one piece we
    /// have not yet completed.
    pub fn is_interested(&self, bitfield: &Bitfield) -> (r: bool)
        requires
            bitfield@.len() == self.pieces@.len(),
        ensures
            r == exists|i: int|
                0 <= i < self.pieces@.len() && bitfield@[i] && !(#[trigger] self.pieces@[i]).completed,
    {
        let mut i: usize = 0;
        while i < self.pieces.len()
            invariant
                i <= self.pieces@.len(),
                bitfield@.len() == self.pieces@.len(),
                forall|k: int|
                    0 <= k < i ==> !(bitfield@[k] && !(#[trigger] self.pieces@[k]).completed),
            decreases self.pieces@.len() - i,
        {
            let bit = match bitfield.is_set(i) {
                Ok(b) => b,
                Err(_) => false,
            };
            if bit && !self.pieces[i].completed {
                return true;
            }
            i = i + 1;
        }
        false
    }
}


/// Puts `id` into the peer list unless already there; the list keeps set
/// semantics.
fn peer_insert(peers: &mut Vec<Vec<u8>>, id: &Vec<u8>)
    ensures
        ({
            let po = crate::util::id_seq(old(peers)@);
            let pn = crate::util::id_seq(final(peers)@);
            if po.contains(id@) {
                pn == po
            } else {
                pn == po.push(id@)
            }
        }),
{
    let ghost po = crate::util::id_seq(peers@);
    if !crate::util::bytes_vec_contains(peers, id) {
        peers.push(id.clone());
        assert(crate::util::id_seq(peers@) =~= po.push(id@));
    }
}

/// Takes `id` out of the peer list; under set semantics (no duplicates) no
/// occurrence remains.
fn peer_remove(peers: &mut Vec<Vec<u8>>, id: &Vec<u8>)
    requires
        crate::util::no_dup_ids(old(peers)@),
    ensures
        crate::util::no_dup_ids(final(peers)@),
        ({
            let po = crate::util::id_seq(old(peers)@);
            let pn = crate::util::id_seq(final(peers)@);
            &&& !pn.contains(id@)
            &&& forall|q: Seq<u8>| q != id@ ==> pn.contains(q) == po.contains(q)
            &&& pn.len() == po.len() - (if po.contains(id@) {
                1int
            } else {
                0int
            })
        }),
{
    let ghost po = crate::util::id_seq(peers@);
    let mut i: usize = 0;
    while i < peers.len()
        invariant
            i <= peers@.len(),
            peers@ == old(peers)@,
            po == crate::util::id_seq(peers@),
            crate::util::no_dup_ids(old(peers)@),
            forall|k: int| 0 <= k < i ==> po[k] != id@,
        decreases peers@.len() - i,
    {
        if crate::util::bytes_eq(&peers[i], id) {
            assert(po[i as int] == id@);
            assert(po.contains(id@));
            peers.remove(i);
            let ghost pn = crate::util::id_seq(peers@);
            proof {
                old(peers)@.remove_ensures(i as int);
                assert(pn.len() == po.len() - 1);
                assert forall|k: int| 0 <= k < pn.len() implies pn[k] == (if k < i {
                    po[k]
                } else {
                    po[k + 1]
                }) by {
                    assert(peers@[k] == (if k < i {
                        old(peers)@[k]
                    } else {
                        old(peers)@[k + 1]
                    }));
                }
                assert forall|q: Seq<u8>| q != id@ implies pn.contains(q) == po.contains(q) by {
                    if po.contains(q) {
                        let k = choose|k: int| 0 <= k < po.len() && po[k] == q;
                        assert(k != i);
                        if k < i {
                            assert(pn[k] == q);
                        } else {
                            assert(pn[k - 1] == q);
                        }
                    }
                    if pn.contains(q) {
                        let k = choose|k: int| 0 <= k < pn.len() && pn[k] == q;
                        if k < i {
                            assert(po[k] == q);
                        } else {
                            assert(po[k + 1] == q);
                        }
                    }
                }
                assert(!pn.contains(id@)) by {
                    if pn.contains(id@) {
                        let k = choose|k: int| 0 <= k < pn.len() && pn[k] == id@;
                        if k < i {
                            assert(po[k] == id@);
                            assert(false);
                        } else {
                            assert(po[k + 1] == id@);
                            assert(po[i as int] == id@);
                            crate::util::lemma_no_dup_index(old(peers)@, i as int, k + 1);
                            assert(false);
                        }
                    }
                }
                assert forall|k1: int, k2: int| 0 <= k1 < k2 < pn.len() implies pn[k1]
                    != pn[k2] by {
                    let a: int = if k1 < i { k1 } else { k1 + 1 };
                    let b: int = if k2 < i { k2 } else { k2 + 1 };
                    assert(pn[k1] == po[a]);
                    assert(pn[k2] == po[b]);
                    crate::util::lemma_no_dup_index(old(peers)@, a, b);
                }
            }
            return ;
        }
        i = i + 1;
    }
    assert(!po.contains(id@));
}

/// Relies on rand::random: an arbitrary machine-word value; nothing is
/// assumed of which value comes back.
#[verifier::external_body]
pub(crate) fn random_usize() -> usize {
    rand::random::<usize>()
}

/// Whether some block of the piece is free to schedule.
fn has_open_block(p: &Piece) -> (r: bool)
    ensures
        r == piece_has_open_block(*p),
{
    let mut j: usize = 0;
    while j < p.blocks.len()
        invariant
            j <= p.blocks@.len(),
            forall|q: int| 0 <= q < j ==> !block_open(#[trigger] p.blocks@[q]),
        decreases p.blocks@.len() - j,
    {
        if !p.blocks[j].completed && p.blocks[j].requested_by.is_none() {
            assert(block_open(p.blocks@[j as int]));
            return true;
        }
        j = j + 1;
    }
    false
}

/// The first block of the piece that is free to schedule.
fn first_open_index(p: &Piece) -> (r: usize)
    requires
        piece_has_open_block(*p),
    ensures
        0 <= r < p.blocks@.len(),
        block_open(p.blocks@[r as int]),
        forall|q: int| 0 <= q < r ==> !block_open(#[trigger] p.blocks@[q]),
{
    let mut j: usize = 0;
    while j < p.blocks.len()
        invariant
            j <= p.blocks@.len(),
            forall|q: int| 0 <= q < j ==> !block_open(#[trigger] p.blocks@[q]),
        decreases p.blocks@.len() - j,
    {
        if !p.blocks[j].completed && p.blocks[j].requested_by.is_none() {
            return j;
        }
        j = j + 1;
    }
    proof {
        assert(false);
    }
    0
}

impl PieceScheduler {
    /// For every index the peer's bitfield sets, puts the peer into that
    /// piece's peer set.
    pub fn add_peer_count(&mut self, peer_id: &Vec<u8>, bitfield: &Bitfield)
        requires
            old(self).wf(),
            bitfield@.len() == old(self).pieces@.len(),
        ensures
            final(self).wf(),
            sched_add_count(*old(self), *final(self), peer_id@, bitfield@),
            final(self).piece_length == old(self).piece_length,
            final(self).total_size == old(self).total_size,
            final(self).any_complete == old(self).any_complete,
            final(self).pieces@.len() == old(self).pieces@.len(),
            forall|i: int|
                0 <= i < old(self).pieces@.len() ==> same_but_peers(
                    #[trigger] final(self).pieces@[i],
                    old(self).pieces@[i],
                ),
            forall|i: int|
                0 <= i < old(self).pieces@.len() && !bitfield@[i]
                    ==> #[trigger] final(self).pieces@[i] == old(self).pieces@[i],
            forall|i: int|
                0 <= i < old(self).pieces@.len() && bitfield@[i] ==> ids(
                    #[trigger] final(self).pieces@[i],
                ) == (if has_peer(old(self).pieces@[i], peer_id@) {
                    ids(old(self).pieces@[i])
                } else {
                    ids(old(self).pieces@[i]).push(peer_id@)
                }),
    {
        let n = self.pieces.len();
        let mut i: usize = 0;
        while i < n
            invariant
                i <= n,
                n == self.pieces@.len(),
                n == old(self).pieces@.len(),
                bitfield@.len() == n,
                self.piece_length == old(self).piece_length,
                self.total_size == old(self).total_size,
                self.any_complete == old(self).any_complete,
                forall|k: int|
                    0 <= k < n ==> piece_wf(
                        #[trigger] old(self).pieces@[k],
                        k,
                        old(self).total_size,
                        old(self).piece_length,
                    ),
                forall|k: int|
                    0 <= k < n ==> same_but_peers(
                        #[trigger] self.pieces@[k],
                        old(self).pieces@[k],
                    ),
                forall|k: int| i <= k < n ==> #[trigger] self.pieces@[k] == old(self).pieces@[k],
                forall|k: int|
                    0 <= k < i && !bitfield@[k] ==> #[trigger] self.pieces@[k] == old(
                        self,
                    ).pieces@[k],
                forall|k: int|
                    0 <= k < i && bitfield@[k] ==> ids(#[trigger] self.pieces@[k]) == (if has_peer(
                        old(self).pieces@[k],
                        peer_id@,
                    ) {
                        ids(old(self).pieces@[k])
                    } else {
                        ids(old(self).pieces@[k]).push(peer_id@)
                    }),
                forall|k: int| 0 <= k < i ==> peers_no_dup(#[trigger] self.pieces@[k]),
            decreases n - i,
        {
            let bit = match bitfield.is_set(i) {
                Ok(b) => b,
                Err(_) => false,
            };
            if bit {
                let ghost before = self.pieces@[i as int];
                let p = &mut self.pieces[i];
                peer_insert(&mut p.peers, peer_id);
                proof {
                    if !has_peer(before, peer_id@) {
                        assert forall|k1: int, k2: int|
                            0 <= k1 < k2 < ids(self.pieces@[i as int]).len() implies ids(
                            self.pieces@[i as int],
                        )[k1] != ids(self.pieces@[i as int])[k2] by {
                            let pn = ids(self.pieces@[i as int]);
                            let po = ids(before);
                            if k2 < po.len() {
                            } else {
                                assert(pn[k2] == peer_id@);
                                assert(pn[k1] == po[k1]);
                                assert(!po.contains(peer_id@));
                            }
                        }
                    }
                }
            }
            i = i + 1;
        }
        proof {
            assert forall|k: int| 0 <= k < n implies piece_wf(
                #[trigger] self.pieces@[k],
                k,
                self.total_size,
                self.piece_length,
            ) by {
                assert(same_but_peers(self.pieces@[k], old(self).pieces@[k]));
                assert(peers_no_dup(self.pieces@[k]));
            }
        }
    }

    /// Puts the peer into one piece's peer set (a HAVE arrived).
    pub fn add_peer_have(&mut self, peer_id: &Vec<u8>, i: usize)
        requires
            old(self).wf(),
            i < old(self).pieces@.len(),
        ensures
            final(self).wf(),
            sched_add_have(*old(self), *final(self), peer_id@, i as int),
            final(self).piece_length == old(self).piece_length,
            final(self).total_size == old(self).total_size,
            final(self).any_complete == old(self).any_complete,
            final(self).pieces@.len() == old(self).pieces@.len(),
            forall|k: int|
                0 <= k < old(self).pieces@.len() && k != i ==> #[trigger] final(self).pieces@[k]
                    == old(self).pieces@[k],
            same_but_peers(final(self).pieces@[i as int], old(self).pieces@[i as int]),
            ids(final(self).pieces@[i as int]) == (if has_peer(
                old(self).pieces@[i as int],
                peer_id@,
            ) {
                ids(old(self).pieces@[i as int])
            } else {
                ids(old(self).pieces@[i as int]).push(peer_id@)
            }),
    {
        let ghost before = self.pieces@[i as int];
        let p = &mut self.pieces[i];
        peer_insert(&mut p.peers, peer_id);
        proof {
            if !has_peer(before, peer_id@) {
                assert forall|k1: int, k2: int|
                    0 <= k1 < k2 < ids(self.pieces@[i as int]).len() implies ids(
                    self.pieces@[i as int],
                )[k1] != ids(self.pieces@[i as int])[k2] by {
                    let pn = ids(self.pieces@[i as int]);
                    let po = ids(before);
                    if k2 < po.len() {
                    } else {
                        assert(pn[k2] == peer_id@);
                        assert(pn[k1] == po[k1]);
                        assert(!po.contains(peer_id@));
                    }
                }
            }
            assert forall|k: int| 0 <= k < self.pieces@.len() implies piece_wf(
                #[trigger] self.pieces@[k],
                k,
                self.total_size,
                self.piece_length,
            ) by {
                assert(piece_wf(old(self).pieces@[k], k, self.total_size, self.piece_length));
                if k == i {
                    assert(same_but_peers(self.pieces@[k], old(self).pieces@[k]));
                    assert(peers_no_dup(self.pieces@[k]));
                }
            }
        }
    }

    /// Takes the peer out of every piece's peer set (the peer was evicted).
    pub fn remove_peer_count(&mut self, peer_id: &Vec<u8>)
        requires
            old(self).wf(),
        ensures
            final(self).wf(),
            sched_remove_peer(*old(self), *final(self), peer_id@),
            final(self).piece_length == old(self).piece_length,
            final(self).total_size == old(self).total_size,
            final(self).any_complete == old(self).any_complete,
            final(self).pieces@.len() == old(self).pieces@.len(),
            forall|i: int|
                0 <= i < old(self).pieces@.len() ==> same_but_peers(
                    #[trigger] final(self).pieces@[i],
                    old(self).pieces@[i],
                ),
            forall|i: int|
                0 <= i < old(self).pieces@.len() ==> !has_peer(
                    #[trigger] final(self).pieces@[i],
                    peer_id@,
                ),
            forall|i: int, q: Seq<u8>|
                0 <= i < old(self).pieces@.len() && q != peer_id@ ==> #[trigger] has_peer(
                    final(self).pieces@[i],
                    q,
                ) == has_peer(old(self).pieces@[i], q),
            forall|i: int|
                0 <= i < old(self).pieces@.len() ==> ids(#[trigger] final(self).pieces@[i]).len()
                    == ids(old(self).pieces@[i]).len() - (if has_peer(
                    old(self).pieces@[i],
                    peer_id@,
                ) {
                    1int
                } else {
                    0int
                }),
    {
        let n = self.pieces.len();
        let mut i: usize = 0;
        while i < n
            invariant
                i <= n,
                n == self.pieces@.len(),
                n == old(self).pieces@.len(),
                self.piece_length == old(self).piece_length,
                self.total_size == old(self).total_size,
                self.any_complete == old(self).any_complete,
                forall|k: int|
                    0 <= k < n ==> piece_wf(
                        #[trigger] old(self).pieces@[k],
                        k,
                        old(self).total_size,
                        old(self).piece_length,
                    ),
                forall|k: int|
                    0 <= k < n ==> same_but_peers(
                        #[trigger] self.pieces@[k],
                        old(self).pieces@[k],
                    ),
                forall|k: int| i <= k < n ==> #[trigger] self.pieces@[k] == old(self).pieces@[k],
                forall|k: int| 0 <= k < i ==> !has_peer(#[trigger] self.pieces@[k], peer_id@),
                forall|k: int, q: Seq<u8>|
                    0 <= k < i && q != peer_id@ ==> #[trigger] has_peer(self.pieces@[k], q)
                        == has_peer(old(self).pieces@[k], q),
                forall|k: int|
                    0 <= k < i ==> ids(#[trigger] self.pieces@[k]).len() == ids(
                        old(self).pieces@[k],
                    ).len() - (if has_peer(old(self).pieces@[k], peer_id@) {
                        1int
                    } else {
                        0int
                    }),
                forall|k: int| 0 <= k < i ==> peers_no_dup(#[trigger] self.pieces@[k]),
            decreases n - i,
        {
            proof {
                assert(self.pieces@[i as int] == old(self).pieces@[i as int]);
                assert(piece_wf(
                    old(self).pieces@[i as int],
                    i as int,
                    old(self).total_size,
                    old(self).piece_length,
                ));
                assert(peers_no_dup(self.pieces@[i as int]));
            }
            let p = &mut self.pieces[i];
            peer_remove(&mut p.peers, peer_id);
            i = i + 1;
        }
        proof {
            assert forall|k: int| 0 <= k < n implies piece_wf(
                #[trigger] self.pieces@[k],
                k,
                self.total_size,
                self.piece_length,
            ) by {
                assert(same_but_peers(self.pieces@[k], old(self).pieces@[k]));
                assert(peers_no_dup(self.pieces@[k]));
            }
        }
    }

    /// Clears the `requested` mark from every block this peer had in flight
    /// (its REQUESTs are void: the peer choked us or was evicted).
    pub fn reset_peer_requests(&mut self, peer_id: &Vec<u8>)
        requires
            old(self).wf(),
        ensures
            final(self).wf(),
            sched_reset_requests(*old(self), *final(self), peer_id@),
            final(self).piece_length == old(self).piece_length,
            final(self).total_size == old(self).total_size,
            final(self).any_complete == old(self).any_complete,
            final(self).pieces@.len() == old(self).pieces@.len(),
            forall|i: int|
                0 <= i < old(self).pieces@.len() ==> same_but_blocks(
                    #[trigger] final(self).pieces@[i],
                    old(self).pieces@[i],
                ),
            forall|i: int|
                0 <= i < old(self).pieces@.len() ==> #[trigger] final(self).pieces@[i].blocks@.len()
                    == old(self).pieces@[i].blocks@.len(),
            forall|i: int, j: int|
                0 <= i < old(self).pieces@.len() && 0 <= j < old(self).pieces@[i].blocks@.len()
                    ==> #[trigger] final(self).pieces@[i].blocks@[j] == (if requested_by_is(
                    old(self).pieces@[i].blocks@[j],
                    peer_id@,
                ) {
                    Block {
                        requested_by: None,
                        ..old(self).pieces@[i].blocks@[j]
                    }
                } else {
                    old(self).pieces@[i].blocks@[j]
                }),
    {
        let n = self.pieces.len();
        let mut i: usize = 0;
        while i < n
            invariant
                i <= n,
                n == self.pieces@.len(),
                n == old(self).pieces@.len(),
                self.piece_length == old(self).piece_length,
                self.total_size == old(self).total_size,
                self.any_complete == old(self).any_complete,
                forall|k: int|
                    0 <= k < n ==> piece_wf(
                        #[trigger] old(self).pieces@[k],
                        k,
                        old(self).total_size,
                        old(self).piece_length,
                    ),
                forall|k: int|
                    0 <= k < n ==> same_but_blocks(
                        #[trigger] self.pieces@[k],
                        old(self).pieces@[k],
                    ),
                forall|k: int| i <= k < n ==> #[trigger] self.pieces@[k] == old(self).pieces@[k],
                forall|k: int|
                    0 <= k < n ==> #[trigger] self.pieces@[k].blocks@.len() == old(
                        self,
                    ).pieces@[k].blocks@.len(),
                forall|k: int, j: int|
                    0 <= k < i && 0 <= j < old(self).pieces@[k].blocks@.len()
                        ==> #[trigger] self.pieces@[k].blocks@[j] == (if requested_by_is(
                        old(self).pieces@[k].blocks@[j],
                        peer_id@,
                    ) {
                        Block {
                            requested_by: None,
                            ..old(self).pieces@[k].blocks@[j]
                        }
                    } else {
                        old(self).pieces@[k].blocks@[j]
                    }),
            decreases n - i,
        {
            let m = self.pieces[i].blocks.len();
            let ghost pbefore = self.pieces@[i as int];
            let ghost pieces_at_entry = self.pieces@;
            let mut j: usize = 0;
            while j < m
                invariant
                    j <= m,
                    i < n,
                    n == self.pieces@.len(),
                    self.piece_length == old(self).piece_length,
                    self.total_size == old(self).total_size,
                    self.any_complete == old(self).any_complete,
                    pbefore == pieces_at_entry[i as int],
                    m == pbefore.blocks@.len(),
                    self.pieces@[i as int].blocks@.len() == m,
                    same_but_blocks(self.pieces@[i as int], pbefore),
                    forall|k: int|
                        0 <= k < n && k != i ==> #[trigger] self.pieces@[k] == pieces_at_entry[k],
                    forall|q: int|
                        0 <= q < j ==> #[trigger] self.pieces@[i as int].blocks@[q] == (
                        if requested_by_is(pbefore.blocks@[q], peer_id@) {
                            Block { requested_by: None, ..pbefore.blocks@[q] }
                        } else {
                            pbefore.blocks@[q]
                        }),
                    forall|q: int|
                        j <= q < m ==> #[trigger] self.pieces@[i as int].blocks@[q]
                            == pbefore.blocks@[q],
                decreases m - j,
            {
                let needs_reset = match &self.pieces[i].blocks[j].requested_by {
                    Some(v) => crate::util::bytes_eq(v, peer_id),
                    None => false,
                };
                assert(needs_reset == requested_by_is(pbefore.blocks@[j as int], peer_id@));
                if needs_reset {
                    self.pieces[i].blocks[j].requested_by = None;
                }
                j = j + 1;
            }
            i = i + 1;
        }
        proof {
            assert forall|k: int| 0 <= k < n implies piece_wf(
                #[trigger] self.pieces@[k],
                k,
                self.total_size,
                self.piece_length,
            ) by {
                assert(piece_wf(old(self).pieces@[k], k, self.total_size, self.piece_length));
                assert(same_but_blocks(self.pieces@[k], old(self).pieces@[k]));
                assert forall|j: int| 0 <= j < self.pieces@[k].blocks@.len() implies (
                #[trigger] self.pieces@[k].blocks@[j]).begin == j * BLOCK_SIZE
                    && self.pieces@[k].blocks@[j].length == block_len_of(
                    piece_len_of(self.total_size, self.piece_length, k),
                    j,
                ) && (self.pieces@[k].blocks@[j].completed ==> self.pieces@[k].blocks@[
                    j
                ].requested_by is None) && (self.pieces@[k].completed ==> self.pieces@[k].blocks@[
                    j
                ].completed) by {
                    assert(self.pieces@[k].blocks@[j] == (if requested_by_is(
                        old(self).pieces@[k].blocks@[j],
                        peer_id@,
                    ) {
                        Block { requested_by: None, ..old(self).pieces@[k].blocks@[j] }
                    } else {
                        old(self).pieces@[k].blocks@[j]
                    }));
                }
            }
        }
    }
}


impl PieceScheduler {
    /// Chooses the next block to request from this peer and marks it
    /// requested.
    ///
    /// `None` exactly when no piece is worth scheduling for the peer.  Before
    /// any piece has completed, the piece is drawn at random from the worthy
    /// ones; afterwards the piece held by the fewest peers wins, ties going
    /// to the smallest index.  Within the piece the first free block is
    /// taken.  A returned block was neither completed nor already requested.
    pub fn schedule_piece(&mut self, peer_id: &Vec<u8>) -> (r: Option<(u32, u32, u32)>)
        requires
            old(self).wf(),
        ensures
            final(self).wf(),
            sched_schedule(*old(self), *final(self), peer_id@, r),
            final(self).piece_length == old(self).piece_length,
            final(self).total_size == old(self).total_size,
            final(self).any_complete == old(self).any_complete,
            final(self).pieces@.len() == old(self).pieces@.len(),
            match r {
                None => *final(self) == *old(self) && (forall|i: int|
                    !candidate(*old(self), i, peer_id@)),
                Some((pi, b, l)) => {
                    let j = b as int / (BLOCK_SIZE as int);
                    let op = old(self).pieces@[pi as int];
                    let np = final(self).pieces@[pi as int];
                    &&& candidate(*old(self), pi as int, peer_id@)
                    &&& 0 <= j < op.blocks@.len()
                    &&& b == op.blocks@[j].begin
                    &&& l == op.blocks@[j].length
                    &&& block_open(op.blocks@[j])
                    &&& forall|j2: int| 0 <= j2 < j ==> !block_open(#[trigger] op.blocks@[j2])
                    &&& forall|i: int|
                        0 <= i < old(self).pieces@.len() && i != pi
                            ==> #[trigger] final(self).pieces@[i] == old(self).pieces@[i]
                    &&& same_but_blocks(np, op)
                    &&& np.blocks@.len() == op.blocks@.len()
                    &&& forall|j2: int|
                        0 <= j2 < op.blocks@.len() && j2 != j ==> #[trigger] np.blocks@[j2]
                            == op.blocks@[j2]
                    &&& np.blocks@[j].begin == op.blocks@[j].begin
                    &&& np.blocks@[j].length == op.blocks@[j].length
                    &&& !np.blocks@[j].completed
                    &&& requested_by_is(np.blocks@[j], peer_id@)
                    &&& old(self).any_complete ==> forall|c: int|
                        candidate(*old(self), c, peer_id@) ==> op.peers@.len() < (
                        #[trigger] old(self).pieces@[c]).peers@.len() || (op.peers@.len() == old(
                            self,
                        ).pieces@[c].peers@.len() && pi <= c)
                },
            },
    {
        let n = self.pieces.len();
        let chosen: Option<usize> = if !self.any_complete {
            let mut cands: Vec<usize> = Vec::new();
            let mut i: usize = 0;
            while i < n
                invariant
                    i <= n,
                    n == self.pieces@.len(),
                    *self == *old(self),
                    forall|k: int|
                        0 <= k < cands@.len() ==> candidate(
                            *self,
                            (#[trigger] cands@[k]) as int,
                            peer_id@,
                        ),
                    forall|q: int|
                        0 <= q < i && candidate(*self, q, peer_id@) ==> exists|k: int|
                            0 <= k < cands@.len() && (#[trigger] cands@[k]) as int == q,
                decreases n - i,
            {
                let ghost cands_before = cands@;
                let p = &self.pieces[i];
                if !p.completed && has_open_block(p) && crate::util::bytes_vec_contains(
                    &p.peers,
                    peer_id,
                ) {
                    cands.push(i);
                    assert(cands@[cands@.len() - 1] as int == i as int);
                }
                proof {
                    assert forall|q: int|
                        0 <= q < i + 1 && candidate(*self, q, peer_id@) implies exists|k: int|
                        0 <= k < cands@.len() && (#[trigger] cands@[k]) as int == q by {
                        if q < i {
                            let k = choose|k: int|
                                0 <= k < cands_before.len() && (#[trigger] cands_before[k]) as int
                                    == q;
                            assert(cands@[k] as int == q);
                        } else {
                            assert(cands@[cands@.len() - 1] as int == q);
                        }
                    }
                }
                i = i + 1;
            }
            if cands.len() == 0 {
                assert forall|q: int| !candidate(*self, q, peer_id@) by {
                    if 0 <= q < n && candidate(*self, q, peer_id@) {
                        assert(exists|k: int|
                            0 <= k < cands@.len() && (#[trigger] cands@[k]) as int == q);
                    }
                }
                None
            } else {
                let pick = random_usize() % cands.len();
                Some(cands[pick])
            }
        } else {
            let mut best: Option<usize> = None;
            let mut i: usize = 0;
            while i < n
                invariant
                    i <= n,
                    n == self.pieces@.len(),
                    *self == *old(self),
                    match best {
                        None => forall|q: int| 0 <= q < i ==> !candidate(*self, q, peer_id@),
                        Some(b) => candidate(*self, b as int, peer_id@) && (b as int) < i
                            && forall|q: int|
                            0 <= q < i && candidate(*self, q, peer_id@) ==> self.pieces@[
                                b as int
                            ].peers@.len() < (#[trigger] self.pieces@[q]).peers@.len() || (
                            self.pieces@[b as int].peers@.len() == self.pieces@[q].peers@.len() && b
                                <= q),
                    },
                decreases n - i,
            {
                let is_cand = {
                    let p = &self.pieces[i];
                    !p.completed && has_open_block(p) && crate::util::bytes_vec_contains(
                        &p.peers,
                        peer_id,
                    )
                };
                if is_cand {
                    best = match best {
                        None => Some(i),
                        Some(b) => {
                            if self.pieces[i].peers.len() < self.pieces[b].peers.len() {
                                Some(i)
                            } else {
                                Some(b)
                            }
                        },
                    };
                }
                i = i + 1;
            }
            best
        };
        match chosen {
            None => {
                assert forall|i: int| !candidate(*old(self), i, peer_id@) by {
                    if 0 <= i < old(self).pieces@.len() {
                        assert(!candidate(*self, i, peer_id@));
                    }
                }
                None
            },
            Some(pi) => {
                let j = first_open_index(&self.pieces[pi]);
                let begin = self.pieces[pi].blocks[j].begin;
                let length = self.pieces[pi].blocks[j].length;
                self.pieces[pi].blocks[j].requested_by = Some(peer_id.clone());
                proof {
                    let op = old(self).pieces@[pi as int];
                    let np = self.pieces@[pi as int];
                    assert(np.blocks@[j as int].requested_by.unwrap()@ == peer_id@);
                    assert(begin as int == (j as int) * (BLOCK_SIZE as int));
                    assert(begin as int / (BLOCK_SIZE as int) == j as int) by {
                        lemma_fundamental_div_mod_converse(
                            (j as int) * (BLOCK_SIZE as int),
                            BLOCK_SIZE as int,
                            j as int,
                            0,
                        );
                    }
                    assert forall|k: int| 0 <= k < self.pieces@.len() implies piece_wf(
                        #[trigger] self.pieces@[k],
                        k,
                        self.total_size,
                        self.piece_length,
                    ) by {
                        assert(piece_wf(
                            old(self).pieces@[k],
                            k,
                            old(self).total_size,
                            old(self).piece_length,
                        ));
                        if k == pi as int {
                            assert forall|j2: int| 0 <= j2 < np.blocks@.len() implies (
                            #[trigger] np.blocks@[j2]).begin == j2 * BLOCK_SIZE && np.blocks@[
                                j2
                            ].length == block_len_of(
                                piece_len_of(self.total_size, self.piece_length, k),
                                j2,
                            ) && (np.blocks@[j2].completed ==> np.blocks@[
                                j2
                            ].requested_by is None) by {
                                assert(op.blocks@[j2].begin == j2 * BLOCK_SIZE);
                            }
                        }
                    }
                }
                Some((pi as u32, begin, length))
            },
        }
    }

    /// Records a received block: marks it completed with no outstanding
    /// request.  Returns whether the piece now has every block completed (the
    /// caller should then hash-verify the piece's bytes and report the
    /// outcome through `piece_verified`).
    pub fn set_block(&mut self, index: usize, begin: u32) -> (r: bool)
        requires
            old(self).wf(),
            index < old(self).pieces@.len(),
            begin % BLOCK_SIZE == 0,
            begin / BLOCK_SIZE < old(self).pieces@[index as int].blocks@.len(),
        ensures
            final(self).wf(),
            sched_set_block(*old(self), *final(self), index as int, begin, r),
            final(self).piece_length == old(self).piece_length,
            final(self).total_size == old(self).total_size,
            final(self).any_complete == old(self).any_complete,
            final(self).pieces@.len() == old(self).pieces@.len(),
            forall|i: int|
                0 <= i < old(self).pieces@.len() && i != index
                    ==> #[trigger] final(self).pieces@[i] == old(self).pieces@[i],
            same_but_blocks(final(self).pieces@[index as int], old(self).pieces@[index as int]),
            final(self).pieces@[index as int].blocks@.len() == old(
                self,
            ).pieces@[index as int].blocks@.len(),
            forall|j2: int|
                0 <= j2 < old(self).pieces@[index as int].blocks@.len() && j2 != begin as int
                    / (BLOCK_SIZE as int) ==> #[trigger] final(self).pieces@[index as int].blocks@[
                    j2
                ] == old(self).pieces@[index as int].blocks@[j2],
            ({
                let j = begin as int / (BLOCK_SIZE as int);
                let ob = old(self).pieces@[index as int].blocks@[j];
                let nb = final(self).pieces@[index as int].blocks@[j];
                nb.begin == ob.begin && nb.length == ob.length && nb.completed
                    && nb.requested_by is None
            }),
            r == (forall|j2: int|
                0 <= j2 < final(self).pieces@[index as int].blocks@.len()
                    ==> (#[trigger] final(self).pieces@[index as int].blocks@[j2]).completed),
    {
        let j = (begin / BLOCK_SIZE) as usize;
        self.pieces[index].blocks[j].completed = true;
        self.pieces[index].blocks[j].requested_by = None;
        proof {
            assert forall|k: int| 0 <= k < self.pieces@.len() implies piece_wf(
                #[trigger] self.pieces@[k],
                k,
                self.total_size,
                self.piece_length,
            ) by {
                assert(piece_wf(
                    old(self).pieces@[k],
                    k,
                    old(self).total_size,
                    old(self).piece_length,
                ));
                if k == index as int {
                    let op = old(self).pieces@[k];
                    let np = self.pieces@[k];
                    assert forall|j2: int| 0 <= j2 < np.blocks@.len() implies (
                    #[trigger] np.blocks@[j2]).begin == j2 * BLOCK_SIZE && np.blocks@[j2].length
                        == block_len_of(
                        piece_len_of(self.total_size, self.piece_length, k),
                        j2,
                    ) && (np.blocks@[j2].completed ==> np.blocks@[j2].requested_by is None) by {
                        assert(op.blocks@[j2].begin == j2 * BLOCK_SIZE);
                    }
                    if np.completed {
                        assert forall|j2: int| 0 <= j2 < np.blocks@.len() implies (
                        #[trigger] np.blocks@[j2]).completed by {
                            assert(op.blocks@[j2].completed);
                        }
                    }
                }
            }
        }
        let m = self.pieces[index].blocks.len();
        let mut q: usize = 0;
        let mut all_done = true;
        while q < m
            invariant
                q <= m,
                index < self.pieces@.len(),
                m == self.pieces@[index as int].blocks@.len(),
                all_done == (forall|j2: int|
                    0 <= j2 < q ==> (#[trigger] self.pieces@[index as int].blocks@[j2]).completed),
            decreases m - q,
        {
            if !self.pieces[index].blocks[q].completed {
                all_done = false;
                assert(!(forall|j2: int|
                    0 <= j2 < q + 1 ==> (#[trigger] self.pieces@[index as int].blocks@[
                        j2
                    ]).completed));
            }
            q = q + 1;
        }
        all_done
    }

    /// Applies the outcome of hash-verifying a bytes-complete piece.  On a
    /// match the piece is completed for good and the policy flag switches to
    /// rarest-first (and never back).  On a mismatch every block of the piece
    /// is reset to be scheduled again.
    pub fn piece_verified(&mut self, index: usize, ok: bool)
        requires
            old(self).wf(),
            index < old(self).pieces@.len(),
            ok ==> forall|j: int|
                0 <= j < old(self).pieces@[index as int].blocks@.len()
                    ==> (#[trigger] old(self).pieces@[index as int].blocks@[j]).completed,
        ensures
            final(self).wf(),
            sched_verified(*old(self), *final(self), index as int, ok),
            final(self).piece_length == old(self).piece_length,
            final(self).total_size == old(self).total_size,
            final(self).pieces@.len() == old(self).pieces@.len(),
            forall|i: int|
                0 <= i < old(self).pieces@.len() && i != index
                    ==> #[trigger] final(self).pieces@[i] == old(self).pieces@[i],
            final(self).pieces@[index as int].index == old(self).pieces@[index as int].index,
            final(self).pieces@[index as int].hash == old(self).pieces@[index as int].hash,
            final(self).pieces@[index as int].peers == old(self).pieces@[index as int].peers,
            ok ==> final(self).pieces@[index as int].completed
                && final(self).pieces@[index as int].blocks == old(self).pieces@[index as int].blocks
                && final(self).any_complete,
            !ok ==> !final(self).pieces@[index as int].completed
                && final(self).any_complete == old(self).any_complete
                && final(self).pieces@[index as int].blocks@.len()
                == old(self).pieces@[index as int].blocks@.len() && forall|j: int|
                0 <= j < old(self).pieces@[index as int].blocks@.len()
                    ==> #[trigger] final(self).pieces@[index as int].blocks@[j] == (Block {
                    completed: false,
                    requested_by: None,
                    ..old(self).pieces@[index as int].blocks@[j]
                }),
    {
        if ok {
            self.pieces[index].completed = true;
            self.any_complete = true;
            proof {
                assert forall|k: int| 0 <= k < self.pieces@.len() implies piece_wf(
                    #[trigger] self.pieces@[k],
                    k,
                    self.total_size,
                    self.piece_length,
                ) by {
                    assert(piece_wf(
                        old(self).pieces@[k],
                        k,
                        old(self).total_size,
                        old(self).piece_length,
                    ));
                }
            }
        } else {
            self.pieces[index].completed = false;
            let m = self.pieces[index].blocks.len();
            let ghost pbefore = self.pieces@[index as int];
            let ghost pieces_at_entry = self.pieces@;
            let mut j: usize = 0;
            while j < m
                invariant
                    j <= m,
                    index < self.pieces@.len(),
                    self.pieces@.len() == pieces_at_entry.len(),
                    self.piece_length == old(self).piece_length,
                    self.total_size == old(self).total_size,
                    self.any_complete == old(self).any_complete,
                    pbefore == pieces_at_entry[index as int],
                    m == pbefore.blocks@.len(),
                    self.pieces@[index as int].blocks@.len() == m,
                    same_but_blocks(self.pieces@[index as int], pbefore),
                    forall|k: int|
                        0 <= k < self.pieces@.len() && k != index ==> #[trigger] self.pieces@[k]
                            == pieces_at_entry[k],
                    forall|q: int|
                        0 <= q < j ==> #[trigger] self.pieces@[index as int].blocks@[q] == (Block {
                            completed: false,
                            requested_by: None,
                            ..pbefore.blocks@[q]
                        }),
                    forall|q: int|
                        j <= q < m ==> #[trigger] self.pieces@[index as int].blocks@[q]
                            == pbefore.blocks@[q],
                decreases m - j,
            {
                self.pieces[index].blocks[j].completed = false;
                self.pieces[index].blocks[j].requested_by = None;
                j = j + 1;
            }
            proof {
                assert forall|k: int| 0 <= k < self.pieces@.len() implies piece_wf(
                    #[trigger] self.pieces@[k],
                    k,
                    self.total_size,
                    self.piece_length,
                ) by {
                    assert(piece_wf(
                        old(self).pieces@[k],
                        k,
                        old(self).total_size,
                        old(self).piece_length,
                    ));
                    if k == index as int {
                        let np = self.pieces@[k];
                        assert forall|j2: int| 0 <= j2 < np.blocks@.len() implies (
                        #[trigger] np.blocks@[j2]).begin == j2 * BLOCK_SIZE && np.blocks@[
                            j2
                        ].length == block_len_of(
                            piece_len_of(self.total_size, self.piece_length, k),
                            j2,
                        ) && (np.blocks@[j2].completed ==> np.blocks@[
                            j2
                        ].requested_by is None) by {
                            assert(old(self).pieces@[k].blocks@[j2].begin == j2 * BLOCK_SIZE);
                        }
                    }
                }
            }
        }
    }
}

/// Scheduler completeness: the local bitfield is all ones exactly when every
/// piece is completed.  With `set_block` reporting readiness exactly when a
/// piece's blocks are all in, and `piece_verified` completing a piece whose
/// bytes matched its hash, this gives: once every block of every piece has
/// been ingested with correct bytes and verified, the bitfield is all ones.
pub proof fn lemma_scheduler_completeness(s: PieceScheduler, bits: Seq<bool>)
    requires
        s.wf(),
        bits.len() == s.pieces@.len(),
        forall|i: int| 0 <= i < bits.len() ==> bits[i] == (#[trigger] s.pieces@[i]).completed,
    ensures
        (forall|i: int| 0 <= i < bits.len() ==> bits[i]) <==> (forall|i: int|
            0 <= i < s.pieces@.len() ==> (#[trigger] s.pieces@[i]).completed),
{
    if forall|i: int| 0 <= i < bits.len() ==> bits[i] {
        assert forall|i: int| 0 <= i < s.pieces@.len() implies (
        #[trigger] s.pieces@[i]).completed by {
            assert(bits[i]);
        }
    }
    if forall|i: int| 0 <= i < s.pieces@.len() ==> (#[trigger] s.pieces@[i]).completed {
        assert forall|i: int| 0 <= i < bits.len() implies #[trigger] bits[i] by {
            assert(s.pieces@[i].completed);
        }
    }
}


/// The scheduler's configuration is unchanged: sizes and piece count.
pub open spec fn sched_scalars(pre: PieceScheduler, post: PieceScheduler) -> bool {
    &&& post.piece_length == pre.piece_length
    &&& post.total_size == pre.total_size
    &&& post.pieces@.len() == pre.pieces@.len()
}

/// `post` is `pre` with every block this peer had in flight reset to idle.
pub open spec fn sched_reset_requests(pre: PieceScheduler, post: PieceScheduler, id: Seq<u8>) -> bool {
    &&& sched_scalars(pre, post)
    &&& post.any_complete == pre.any_complete
    &&& forall|i: int|
        0 <= i < pre.pieces@.len() ==> same_but_blocks(#[trigger] post.pieces@[i], pre.pieces@[i])
    &&& forall|i: int|
        0 <= i < pre.pieces@.len() ==> (#[trigger] post.pieces@[i]).blocks@.len()
            == pre.pieces@[i].blocks@.len()
    &&& forall|i: int, j: int|
        0 <= i < pre.pieces@.len() && 0 <= j < pre.pieces@[i].blocks@.len()
            ==> #[trigger] post.pieces@[i].blocks@[j] == (if requested_by_is(
            pre.pieces@[i].blocks@[j],
            id,
        ) {
            Block { requested_by: None, ..pre.pieces@[i].blocks@[j] }
        } else {
            pre.pieces@[i].blocks@[j]
        })
}

/// `post` is `pre` with this peer taken out of every piece's peer set.
pub open spec fn sched_remove_peer(pre: PieceScheduler, post: PieceScheduler, id: Seq<u8>) -> bool {
    &&& sched_scalars(pre, post)
    &&& post.any_complete == pre.any_complete
    &&& forall|i: int|
        0 <= i < pre.pieces@.len() ==> same_but_peers(#[trigger] post.pieces@[i], pre.pieces@[i])
    &&& forall|i: int| 0 <= i < pre.pieces@.len() ==> !has_peer(#[trigger] post.pieces@[i], id)
    &&& forall|i: int, q: Seq<u8>|
        0 <= i < pre.pieces@.len() && q != id ==> #[trigger] has_peer(post.pieces@[i], q)
            == has_peer(pre.pieces@[i], q)
    &&& forall|i: int|
        0 <= i < pre.pieces@.len() ==> ids(#[trigger] post.pieces@[i]).len() == ids(
            pre.pieces@[i],
        ).len() - (if has_peer(pre.pieces@[i], id) {
            1int
        } else {
            0int
        })
}

/// `post` is `pre` with this peer added to the peer set of every piece the
/// bitfield marks.
pub open spec fn sched_add_count(
    pre: PieceScheduler,
    post: PieceScheduler,
    id: Seq<u8>,
    bf: Seq<bool>,
) -> bool {
    &&& sched_scalars(pre, post)
    &&& post.any_complete == pre.any_complete
    &&& forall|i: int|
        0 <= i < pre.pieces@.len() ==> same_but_peers(#[trigger] post.pieces@[i], pre.pieces@[i])
    &&& forall|i: int|
        0 <= i < pre.pieces@.len() && !bf[i] ==> #[trigger] post.pieces@[i] == pre.pieces@[i]
    &&& forall|i: int|
        0 <= i < pre.pieces@.len() && bf[i] ==> ids(#[trigger] post.pieces@[i]) == (if has_peer(
            pre.pieces@[i],
            id,
        ) {
            ids(pre.pieces@[i])
        } else {
            ids(pre.pieces@[i]).push(id)
        })
}

/// `post` is `pre` with this peer added to one piece's peer set.
pub open spec fn sched_add_have(
    pre: PieceScheduler,
    post: PieceScheduler,
    id: Seq<u8>,
    i: int,
) -> bool {
    &&& sched_scalars(pre, post)
    &&& post.any_complete == pre.any_complete
    &&& forall|k: int|
        0 <= k < pre.pieces@.len() && k != i ==> #[trigger] post.pieces@[k] == pre.pieces@[k]
    &&& same_but_peers(post.pieces@[i], pre.pieces@[i])
    &&& ids(post.pieces@[i]) == (if has_peer(pre.pieces@[i], id) {
        ids(pre.pieces@[i])
    } else {
        ids(pre.pieces@[i]).push(id)
    })
}

/// `post` is `pre` after choosing block `r` for this peer: `None` exactly
/// when the peer has no candidate piece; otherwise the returned block was
/// free, is the first free block of its piece, is now marked requested by the
/// peer, and — once any piece has completed — the piece is a rarest-first
/// choice with ties to the smallest index.
pub open spec fn sched_schedule(
    pre: PieceScheduler,
    post: PieceScheduler,
    id: Seq<u8>,
    r: Option<(u32, u32, u32)>,
) -> bool {
    match r {
        None => post == pre && (forall|i: int| !candidate(pre, i, id)),
        Some((pi, b, l)) => {
            let j = b as int / (BLOCK_SIZE as int);
            let op = pre.pieces@[pi as int];
            let np = post.pieces@[pi as int];
            &&& sched_scalars(pre, post)
            &&& post.any_complete == pre.any_complete
            &&& candidate(pre, pi as int, id)
            &&& 0 <= j < op.blocks@.len()
            &&& b == op.blocks@[j].begin
            &&& l == op.blocks@[j].length
            &&& block_open(op.blocks@[j])
            &&& forall|j2: int| 0 <= j2 < j ==> !block_open(#[trigger] op.blocks@[j2])
            &&& forall|i: int|
                0 <= i < pre.pieces@.len() && i != pi ==> #[trigger] post.pieces@[i]
                    == pre.pieces@[i]
            &&& same_but_blocks(np, op)
            &&& np.blocks@.len() == op.blocks@.len()
            &&& forall|j2: int|
                0 <= j2 < op.blocks@.len() && j2 != j ==> #[trigger] np.blocks@[j2]
                    == op.blocks@[j2]
            &&& np.blocks@[j].begin == op.blocks@[j].begin
            &&& np.blocks@[j].length == op.blocks@[j].length
            &&& !np.blocks@[j].completed
            &&& requested_by_is(np.blocks@[j], id)
            &&& pre.any_complete ==> forall|c: int|
                candidate(pre, c, id) ==> op.peers@.len() < (
                #[trigger] pre.pieces@[c]).peers@.len() || (op.peers@.len()
                    == pre.pieces@[c].peers@.len() && pi <= c)
        },
    }
}

/// `post` is `pre` with the named block recorded as received; `r` says
/// whether the piece's blocks are now all in.
pub open spec fn sched_set_block(
    pre: PieceScheduler,
    post: PieceScheduler,
    index: int,
    begin: u32,
    r: bool,
) -> bool {
    let j = begin as int / (BLOCK_SIZE as int);
    &&& sched_scalars(pre, post)
    &&& post.any_complete == pre.any_complete
    &&& forall|i: int|
        0 <= i < pre.pieces@.len() && i != index ==> #[trigger] post.pieces@[i] == pre.pieces@[i]
    &&& same_but_blocks(post.pieces@[index], pre.pieces@[index])
    &&& post.pieces@[index].blocks@.len() == pre.pieces@[index].blocks@.len()
    &&& forall|j2: int|
        0 <= j2 < pre.pieces@[index].blocks@.len() && j2 != j
            ==> #[trigger] post.pieces@[index].blocks@[j2] == pre.pieces@[index].blocks@[j2]
    &&& post.pieces@[index].blocks@[j].begin == pre.pieces@[index].blocks@[j].begin
    &&& post.pieces@[index].blocks@[j].length == pre.pieces@[index].blocks@[j].length
    &&& post.pieces@[index].blocks@[j].completed
    &&& post.pieces@[index].blocks@[j].requested_by is None
    &&& r == (forall|j2: int|
        0 <= j2 < post.pieces@[index].blocks@.len()
            ==> (#[trigger] post.pieces@[index].blocks@[j2]).completed)
}

/// `post` is `pre` after the hash verdict on a bytes-complete piece: a match
/// completes the piece and switches the policy flag on for good; a mismatch
/// resets every block of the piece.
pub open spec fn sched_verified(
    pre: PieceScheduler,
    post: PieceScheduler,
    index: int,
    ok: bool,
) -> bool {
    &&& sched_scalars(pre, post)
    &&& forall|i: int|
        0 <= i < pre.pieces@.len() && i != index ==> #[trigger] post.pieces@[i] == pre.pieces@[i]
    &&& post.pieces@[index].index == pre.pieces@[index].index
    &&& post.pieces@[index].hash == pre.pieces@[index].hash
    &&& post.pieces@[index].peers == pre.pieces@[index].peers
    &&& ok ==> post.pieces@[index].completed && post.pieces@[index].blocks
        == pre.pieces@[index].blocks && post.any_complete
    &&& !ok ==> !post.pieces@[index].completed && post.any_complete == pre.any_complete
        && post.pieces@[index].blocks@.len() == pre.pieces@[index].blocks@.len() && forall|j: int|
        0 <= j < pre.pieces@[index].blocks@.len() ==> #[trigger] post.pieces@[index].blocks@[j]
            == (Block {
            completed: false,
            requested_by: None,
            ..pre.pieces@[index].blocks@[j]
        })
}

} // verus!

