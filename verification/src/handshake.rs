//! The fixed 68-byte peer handshake.
//!
//! One byte 19, the literal protocol string, 8 reserved zero bytes, the
//! 20-byte info hash, the 20-byte local peer id.  An inbound handshake must
//! match byte for byte up to the peer id, which is captured.

use vstd::prelude::*;

use crate::message::Message;
use crate::tracker::Peer;

verus! {

/// The 19 bytes of `BitTorrent protocol`.
pub open spec fn spec_pstr() -> Seq<u8> {
    seq![
        66u8,
        105u8,
        116u8,
        84u8,
        111u8,
        114u8,
        114u8,
        101u8,
        110u8,
        116u8,
        32u8,
        112u8,
        114u8,
        111u8,
        116u8,
        111u8,
        99u8,
        111u8,
        108u8,
    ]
}

/// The whole 68-byte handshake for this torrent and peer.
pub open spec fn spec_handshake(info_hash: Seq<u8>, peer_id: Seq<u8>) -> Seq<u8> {
    seq![19u8] + spec_pstr() + seq![0u8, 0u8, 0u8, 0u8, 0u8, 0u8, 0u8, 0u8] + info_hash + peer_id
}

/// Which half of the exchange failed.
#[derive(Debug, Clone, Copy, PartialEq, Eq, Structural)]
pub enum HandshakePhase {
    Send,
    Receive,
}

/// A failed handshake exchange: with whom, what was sent, where it failed,
/// and why.
#[derive(Debug)]
pub struct HandshakeError {
    pub peer: Peer,
    pub handshake: Vec<u8>,
    pub status: HandshakePhase,
    pub message: String,
}

/// A connection attempt that failed before the handshake.
#[derive(Debug)]
pub struct PeerConnectionError {
    pub peer: Peer,
}

/// The client's error surface.
#[derive(Debug)]
pub enum ClientError {
    ValidateHandshakeError(String),
    GetPeersError(String),
    HandshakeError(HandshakeError),
    SendMessageError((Vec<u8>, crate::message::SendMessageError)),
    ReceiveMessageError((Vec<u8>, Option<Message>, String)),
    ProcessMessagesError(String),
}

/// The protocol string bytes.
fn pstr_bytes() -> (r: Vec<u8>)
    ensures
        r@ == spec_pstr(),
{
    let mut r: Vec<u8> = Vec::new();
    r.push(66);
    r.push(105);
    r.push(116);
    r.push(84);
    r.push(111);
    r.push(114);
    r.push(114);
    r.push(101);
    r.push(110);
    r.push(116);
    r.push(32);
    r.push(112);
    r.push(114);
    r.push(111);
    r.push(116);
    r.push(111);
    r.push(99);
    r.push(111);
    r.push(108);
    assert(r@ =~= spec_pstr());
    r
}

/// Builds the outbound handshake.
pub fn build_handshake(info_hash: &Vec<u8>, peer_id: &Vec<u8>) -> (r: Vec<u8>)
    requires
        info_hash@.len() == 20,
        peer_id@.len() == 20,
    ensures
        r@ == spec_handshake(info_hash@, peer_id@),
        r@.len() == 68,
{
    let mut r: Vec<u8> = Vec::new();
    r.push(19);
    let mut pstr = pstr_bytes();
    r.append(&mut pstr);
    let mut i: usize = 0;
    while i < 8
        invariant
            i <= 8,
            r@ == seq![19u8] + spec_pstr() + Seq::new(i as nat, |q: int| 0u8),
        decreases 8 - i,
    {
        r.push(0);
        assert(Seq::new((i + 1) as nat, |q: int| 0u8) =~= Seq::new(i as nat, |q: int| 0u8).push(
            0u8,
        ));
        i = i + 1;
    }
    let mut q: usize = 0;
    while q < info_hash.len()
        invariant
            q <= info_hash@.len(),
            info_hash@.len() == 20,
            r@ == seq![19u8] + spec_pstr() + Seq::new(8, |t: int| 0u8) + info_hash@.subrange(
                0,
                q as int,
            ),
        decreases info_hash@.len() - q,
    {
        r.push(info_hash[q]);
        assert(info_hash@.subrange(0, q + 1 as int) =~= info_hash@.subrange(0, q as int).push(
            info_hash@[q as int],
        ));
        q = q + 1;
    }
    let mut t: usize = 0;
    while t < peer_id.len()
        invariant
            t <= peer_id@.len(),
            peer_id@.len() == 20,
            info_hash@.len() == 20,
            r@ == seq![19u8] + spec_pstr() + Seq::new(8, |w: int| 0u8) + info_hash@
                + peer_id@.subrange(0, t as int),
        decreases peer_id@.len() - t,
    {
        r.push(peer_id[t]);
        assert(peer_id@.subrange(0, t + 1 as int) =~= peer_id@.subrange(0, t as int).push(
            peer_id@[t as int],
        ));
        t = t + 1;
    }
    proof {
        assert(info_hash@.subrange(0, 20) =~= info_hash@);
        assert(peer_id@.subrange(0, 20) =~= peer_id@);
        assert(Seq::new(8, |w: int| 0u8) =~= seq![0u8, 0u8, 0u8, 0u8, 0u8, 0u8, 0u8, 0u8]);
        assert(r@ =~= spec_handshake(info_hash@, peer_id@));
    }
    r
}

/// Checks an inbound handshake against our info hash: it must be 68 bytes,
/// start with length 19 and the protocol string, and carry our info hash;
/// the trailing 20 bytes are the remote peer id, which is returned.  Each
/// violation is rejected with its own reason.
pub fn validate_handshake(handshake: &Vec<u8>, info_hash: &Vec<u8>) -> (r: Result<
    Vec<u8>,
    ClientError,
>)
    requires
        info_hash@.len() == 20,
    ensures
        handshake@.len() != 68 ==> (r matches Err(ClientError::ValidateHandshakeError(m))
            && m@ == "Invalid handshake length"@),
        handshake@.len() == 68 && handshake@[0] != 19 ==> (r matches Err(
            ClientError::ValidateHandshakeError(m),
        ) && m@ == "Invalid protocol string length"@),
        handshake@.len() == 68 && handshake@[0] == 19 && handshake@.subrange(1, 20) != spec_pstr()
            ==> (r matches Err(ClientError::ValidateHandshakeError(m)) && m@
            == "Invalid protocol string"@),
        handshake@.len() == 68 && handshake@[0] == 19 && handshake@.subrange(1, 20) == spec_pstr()
            && handshake@.subrange(28, 48) != info_hash@ ==> (r matches Err(
            ClientError::ValidateHandshakeError(m),
        ) && m@ == "Invalid info hash"@),
        handshake@.len() == 68 && handshake@[0] == 19 && handshake@.subrange(1, 20) == spec_pstr()
            && handshake@.subrange(28, 48) == info_hash@ ==> (r matches Ok(pid) && pid@
            == handshake@.subrange(48, 68)),
{
    if handshake.len() != 68 {
        return Err(ClientError::ValidateHandshakeError("Invalid handshake length".to_owned()));
    }
    if handshake[0] != 19 {
        return Err(
            ClientError::ValidateHandshakeError("Invalid protocol string length".to_owned()),
        );
    }
    let pstr = pstr_bytes();
    let mut i: usize = 0;
    while i < 19
        invariant
            i <= 19,
            handshake@.len() == 68,
            handshake@[0] == 19,
            pstr@ == spec_pstr(),
            forall|q: int| 0 <= q < i ==> handshake@[1 + q] == spec_pstr()[q],
        decreases 19 - i,
    {
        if handshake[1 + i] != pstr[i] {
            assert(handshake@.subrange(1, 20)[i as int] != spec_pstr()[i as int]);
            return Err(ClientError::ValidateHandshakeError("Invalid protocol string".to_owned()));
        }
        i = i + 1;
    }
    assert(handshake@.subrange(1, 20) =~= spec_pstr());
    let mut q: usize = 0;
    while q < 20
        invariant
            q <= 20,
            handshake@.len() == 68,
            handshake@[0] == 19,
            handshake@.subrange(1, 20) == spec_pstr(),
            info_hash@.len() == 20,
            forall|t: int| 0 <= t < q ==> handshake@[28 + t] == info_hash@[t],
        decreases 20 - q,
    {
        if handshake[28 + q] != info_hash[q] {
            assert(handshake@.subrange(28, 48)[q as int] != info_hash@[q as int]);
            return Err(ClientError::ValidateHandshakeError("Invalid info hash".to_owned()));
        }
        q = q + 1;
    }
    assert(handshake@.subrange(28, 48) =~= info_hash@);
    let mut pid: Vec<u8> = Vec::new();
    let mut t: usize = 48;
    while t < 68
        invariant
            48 <= t <= 68,
            handshake@.len() == 68,
            handshake@[0] == 19,
            handshake@.subrange(1, 20) == spec_pstr(),
            handshake@.subrange(28, 48) == info_hash@,
            info_hash@.len() == 20,
            pid@ == handshake@.subrange(48, t as int),
        decreases 68 - t,
    {
        pid.push(handshake[t]);
        assert(handshake@.subrange(48, t + 1 as int) =~= handshake@.subrange(48, t as int).push(
            handshake@[t as int],
        ));
        t = t + 1;
    }
    Ok(pid)
}

} // verus!
