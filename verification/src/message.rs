//! Peer-wire message framing.
//!
//! A frame is a 4-byte big-endian length prefix `L` followed by `L` bytes.
//! `L = 0` is a KEEP-ALIVE; otherwise the first payload byte is the message
//! id and the remaining `L - 1` bytes are the message payload.  KEEP-ALIVE is
//! carried internally under a synthetic id distinct from the wire ids.

use vstd::prelude::*;

verus! {

/// The peer-wire message ids, plus the synthetic `KeepAlive`.
#[derive(Clone, Copy, Debug, PartialEq, Eq, Structural)]
pub enum MessageId {
    Choke,
    Unchoke,
    Interested,
    NotInterested,
    Have,
    Bitfield,
    Request,
    Piece,
    Cancel,
    Port,
    KeepAlive,
}

/// The wire value of each message id; 10 is the synthetic KEEP-ALIVE id.
pub open spec fn spec_id_value(m: MessageId) -> u8 {
    match m {
        MessageId::Choke => 0,
        MessageId::Unchoke => 1,
        MessageId::Interested => 2,
        MessageId::NotInterested => 3,
        MessageId::Have => 4,
        MessageId::Bitfield => 5,
        MessageId::Request => 6,
        MessageId::Piece => 7,
        MessageId::Cancel => 8,
        MessageId::Port => 9,
        MessageId::KeepAlive => 10,
    }
}

impl MessageId {
    /// The numeric value of this id.
    pub fn value(&self) -> (r: u8)
        ensures
            r == spec_id_value(*self),
    {
        match self {
            MessageId::Choke => 0,
            MessageId::Unchoke => 1,
            MessageId::Interested => 2,
            MessageId::NotInterested => 3,
            MessageId::Have => 4,
            MessageId::Bitfield => 5,
            MessageId::Request => 6,
            MessageId::Piece => 7,
            MessageId::Cancel => 8,
            MessageId::Port => 9,
            MessageId::KeepAlive => 10,
        }
    }

    /// The id a numeric value names.
    pub fn from_value(id: u8) -> (r: MessageId)
        requires
            id <= 10,
        ensures
            spec_id_value(r) == id,
    {
        if id == 0 {
            MessageId::Choke
        } else if id == 1 {
            MessageId::Unchoke
        } else if id == 2 {
            MessageId::Interested
        } else if id == 3 {
            MessageId::NotInterested
        } else if id == 4 {
            MessageId::Have
        } else if id == 5 {
            MessageId::Bitfield
        } else if id == 6 {
            MessageId::Request
        } else if id == 7 {
            MessageId::Piece
        } else if id == 8 {
            MessageId::Cancel
        } else if id == 9 {
            MessageId::Port
        } else {
            MessageId::KeepAlive
        }
    }
}

/// The big-endian bytes of a 32-bit value, high byte first.
pub open spec fn spec_be32(v: u32) -> Seq<u8> {
    seq![
        (v / 0x1000000) as u8,
        ((v / 0x10000) % 256) as u8,
        ((v / 256) % 256) as u8,
        (v % 256) as u8,
    ]
}

/// The 32-bit value four big-endian bytes carry.
pub open spec fn spec_u32_be(b0: u8, b1: u8, b2: u8, b3: u8) -> u32 {
    (b0 * 0x1000000 + b1 * 0x10000 + b2 * 256 + b3) as u32
}

/// Writing a value big-endian and reading the bytes back is the identity.
pub proof fn lemma_be32_roundtrip(v: u32)
    ensures
        spec_u32_be(spec_be32(v)[0], spec_be32(v)[1], spec_be32(v)[2], spec_be32(v)[3]) == v,
{
}

/// The big-endian bytes of `v`, high byte first.
pub fn u32_to_be(v: u32) -> (r: Vec<u8>)
    ensures
        r@ == spec_be32(v),
{
    let mut r: Vec<u8> = Vec::new();
    r.push((v / 0x1000000) as u8);
    r.push(((v / 0x10000) % 256) as u8);
    r.push(((v / 256) % 256) as u8);
    r.push((v % 256) as u8);
    assert(r@ =~= spec_be32(v));
    r
}

/// The value carried by four big-endian bytes.
pub fn u32_from_be(b0: u8, b1: u8, b2: u8, b3: u8) -> (r: u32)
    ensures
        r == spec_u32_be(b0, b1, b2, b3),
{
    b0 as u32 * 0x1000000 + b1 as u32 * 0x10000 + b2 as u32 * 256 + b3 as u32
}

/// A framed peer-wire message: length prefix, id, payload.
#[derive(Debug, Clone, PartialEq)]
pub struct Message {
    len: u32,
    id: u8,
    payload: Vec<u8>,
}

/// The frame a message model (id value, payload) serializes to.
pub open spec fn spec_frame(id: u8, payload: Seq<u8>) -> Seq<u8> {
    if id == 10 {
        spec_be32(0)
    } else {
        spec_be32((payload.len() + 1) as u32) + seq![id] + payload
    }
}

/// The message model a frame carries, if it is a whole well-formed frame.
pub open spec fn spec_decode(f: Seq<u8>) -> Option<(u8, Seq<u8>)> {
    if f.len() < 4 {
        None
    } else if f.len() != 4 + spec_u32_be(f[0], f[1], f[2], f[3]) {
        None
    } else if f.len() == 4 {
        Some((10u8, Seq::<u8>::empty()))
    } else if f[4] >= 10 {
        None
    } else {
        Some((f[4], f.subrange(5, f.len() as int)))
    }
}

impl View for Message {
    type V = (u8, Seq<u8>);

    closed spec fn view(&self) -> (u8, Seq<u8>) {
        (self.id, self.payload@)
    }
}

impl Message {
    /// The internal fields agree: the synthetic KEEP-ALIVE has length 0 and no
    /// payload; every other message's length counts the id byte plus the payload.
    pub open spec fn wf(self) -> bool {
        self@.0 <= 10 && (if self@.0 == 10 {
            self.spec_len() == 0 && self@.1.len() == 0
        } else {
            self.spec_len() == self@.1.len() + 1
        })
    }

    /// The value of the length prefix this message serializes under.
    pub closed spec fn spec_len(self) -> u32 {
        self.len
    }

    /// A message with the given id and payload.
    pub fn new(id: MessageId, payload: &Vec<u8>) -> (r: Message)
        requires
            id == MessageId::KeepAlive ==> payload@.len() == 0,
            payload@.len() + 1 <= u32::MAX,
        ensures
            r@ == (spec_id_value(id), payload@),
            r.wf(),
    {
        let idv = id.value();
        let len: u32 = if idv == 10 {
            0
        } else {
            payload.len() as u32 + 1
        };
        Message { len, id: idv, payload: payload.clone() }
    }

    /// The message id.
    pub fn get_id(&self) -> (r: MessageId)
        requires
            self@.0 <= 10,
        ensures
            spec_id_value(r) == self@.0,
    {
        MessageId::from_value(self.id)
    }

    /// The message payload.
    pub fn get_payload(&self) -> (r: &Vec<u8>)
        ensures
            r@ == self@.1,
    {
        &self.payload
    }

    /// The on-wire frame: length prefix, id, payload.  A KEEP-ALIVE
    /// serializes to exactly `00 00 00 00`.
    pub fn serialize(&self) -> (r: Vec<u8>)
        requires
            self.wf(),
        ensures
            r@ == spec_frame(self@.0, self@.1),
            self@.0 == 10 ==> r@ =~= seq![0u8, 0u8, 0u8, 0u8],
    {
        let mut r = u32_to_be(self.len);
        if self.id != 10 {
            r.push(self.id);
            let mut i: usize = 0;
            while i < self.payload.len()
                invariant
                    i <= self.payload@.len(),
                    r@ == spec_be32(self.len) + seq![self.id] + self.payload@.subrange(0, i as int),
                decreases self.payload@.len() - i,
            {
                r.push(self.payload[i]);
                assert(self.payload@.subrange(0, i + 1 as int) =~= self.payload@.subrange(
                    0,
                    i as int,
                ).push(self.payload@[i as int]));
                i = i + 1;
            }
            assert(self.payload@.subrange(0, self.payload@.len() as int) =~= self.payload@);
        }
        assert(r@ =~= spec_frame(self@.0, self@.1));
        assert(spec_be32(0) =~= seq![0u8, 0u8, 0u8, 0u8]);
        r
    }

    /// Reads a whole frame back into a message: `None` exactly when the bytes
    /// are not one whole frame (short prefix, length prefix not matching the
    /// byte count, or an id byte outside the wire protocol).
    pub fn decode(frame: &Vec<u8>) -> (r: Option<Message>)
        ensures
            match spec_decode(frame@) {
                Some(v) => r is Some && r.unwrap()@ == v && r.unwrap().wf(),
                None => r is None,
            },
    {
        if frame.len() < 4 {
            return None;
        }
        let l = u32_from_be(frame[0], frame[1], frame[2], frame[3]);
        if (frame.len() - 4) as u64 != l as u64 {
            return None;
        }
        if l == 0 {
            let payload: Vec<u8> = Vec::new();
            return Some(Message { len: 0, id: 10, payload });
        }
        let id = frame[4];
        if id >= 10 {
            return None;
        }
        let mut payload: Vec<u8> = Vec::new();
        let mut i: usize = 5;
        while i < frame.len()
            invariant
                5 <= i <= frame@.len(),
                payload@ == frame@.subrange(5, i as int),
            decreases frame@.len() - i,
        {
            payload.push(frame[i]);
            assert(frame@.subrange(5, i + 1 as int) =~= frame@.subrange(5, i as int).push(
                frame@[i as int],
            ));
            i = i + 1;
        }
        Some(Message { len: l, id, payload })
    }
}

/// Decoding the frame a well-formed message serializes to gives back exactly
/// that message's id and payload, for every message.
pub proof fn lemma_frame_roundtrip(id: u8, payload: Seq<u8>)
    requires
        id <= 10,
        id == 10 ==> payload.len() == 0,
        payload.len() + 1 <= u32::MAX,
    ensures
        spec_decode(spec_frame(id, payload)) == Some((id, payload)),
{
    let f = spec_frame(id, payload);
    if id == 10 {
        assert(f.len() == 4);
        assert(spec_u32_be(f[0], f[1], f[2], f[3]) == 0);
    } else {
        let l = (payload.len() + 1) as u32;
        lemma_be32_roundtrip(l);
        assert(f[0] == spec_be32(l)[0] && f[1] == spec_be32(l)[1] && f[2] == spec_be32(l)[2] && f[3]
            == spec_be32(l)[3]);
        assert(spec_u32_be(f[0], f[1], f[2], f[3]) == l);
        assert(f.len() == 4 + l);
        assert(f[4] == id && id < 10);
        assert(f.subrange(5, f.len() as int) =~= payload);
    }
}

/// The payload of a REQUEST or CANCEL: piece index, block offset, block
/// length, each as 4 big-endian bytes.
pub fn request_payload(index: u32, begin: u32, length: u32) -> (r: Vec<u8>)
    ensures
        r@ == spec_be32(index) + spec_be32(begin) + spec_be32(length),
{
    let mut r = u32_to_be(index);
    let mut b = u32_to_be(begin);
    let mut l = u32_to_be(length);
    r.append(&mut b);
    r.append(&mut l);
    r
}

/// The payload of a HAVE: the piece index as 4 big-endian bytes.
pub fn have_payload(index: u32) -> (r: Vec<u8>)
    ensures
        r@ == spec_be32(index),
{
    u32_to_be(index)
}

/// Reads the piece index out of a HAVE payload; `None` exactly when the
/// payload is not 4 bytes.
pub fn parse_have_payload(payload: &Vec<u8>) -> (r: Option<u32>)
    ensures
        payload@.len() == 4 ==> r == Some(spec_u32_be(payload@[0], payload@[1], payload@[2], payload@[3])),
        payload@.len() != 4 ==> r is None,
{
    if payload.len() != 4 {
        return None;
    }
    Some(u32_from_be(payload[0], payload[1], payload[2], payload[3]))
}

/// Reads the piece index and block offset out of a PIECE payload header;
/// `None` exactly when fewer than 8 bytes stand before the block bytes.
pub fn parse_piece_header(payload: &Vec<u8>) -> (r: Option<(u32, u32)>)
    ensures
        payload@.len() >= 8 ==> r == Some(
            (
                spec_u32_be(payload@[0], payload@[1], payload@[2], payload@[3]),
                spec_u32_be(payload@[4], payload@[5], payload@[6], payload@[7]),
            ),
        ),
        payload@.len() < 8 ==> r is None,
{
    if payload.len() < 8 {
        return None;
    }
    Some(
        (
            u32_from_be(payload[0], payload[1], payload[2], payload[3]),
            u32_from_be(payload[4], payload[5], payload[6], payload[7]),
        ),
    )
}

/// A send that failed for good: the message it carried and the reason.
#[derive(Debug)]
pub struct SendMessageError {
    pub message: Message,
    pub error: String,
}

/// A receive that failed for good: the reason.
#[derive(Debug)]
pub struct ReceiveMessageError {
    pub error: String,
}

/// The outcome of a failed receive: a hard error, or try again later.
#[derive(Debug)]
pub enum ReceiveError {
    ReceiveError(ReceiveMessageError),
    WouldBlock,
}

/// The outcome of a failed send: a hard error, or try again later.
pub enum SendError {
    SendError(SendMessageError),
    WouldBlock,
}

} // verus!
