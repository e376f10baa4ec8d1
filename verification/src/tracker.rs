//! The tracker client's verifiable half: the local peer identity, the
//! announce URL, and the parsing of announce responses.
//!
//! The HTTP round trip itself happens outside the library; it hands the
//! response bytes back as a parsed bencode value.

use vstd::prelude::*;

use crate::bencode::{dict_get, BencodeString, BencodeValue};
use crate::metainfo::{as_dict, Metainfo};
use crate::sha1sum::sha1_of;

verus! {

/// A peer's address: four dotted-quad bytes from the compact format, or a
/// host string from the dictionary format.
#[derive(Debug, Clone, PartialEq)]
pub enum PeerAddr {
    V4(u8, u8, u8, u8),
    Host(String),
}

/// One peer the tracker announced.
#[derive(Debug, Clone)]
pub struct Peer {
    pub addr: PeerAddr,
    pub port: u16,
    pub peer_id: Option<Vec<u8>>,
}

/// The tracker spoke, but not to the point.
#[derive(Debug)]
pub struct InvalidResponseError {
    pub url: String,
    pub status: u16,
    pub message: String,
}

/// Why talking to the tracker failed.
#[derive(Debug)]
pub enum TrackerError {
    InvalidMetainfo,
    InvalidInfoHash,
    GetPeersFailure(String),
    GetAccounceError(String),
    InvalidResponse(InvalidResponseError),
    ResponseParseError(String),
}

/// A successful announce: the revisit interval and the peer set, with the
/// optional bookkeeping fields.
#[derive(Debug)]
pub struct TrackerSuccessResponse {
    pub interval: i64,
    pub min_interval: Option<i64>,
    pub tracker_id: Option<String>,
    pub complete: i64,
    pub incomplete: i64,
    pub peers: Vec<Peer>,
}

/// The tracker refused the announce.
#[derive(Debug)]
pub struct TrackerFailureResponse {
    pub failure_reason: String,
}

/// What an announce came back with.
#[derive(Debug)]
pub enum TrackerResponse {
    Success(TrackerSuccessResponse),
    Failure(TrackerFailureResponse),
}

/// A byte the form-urlencoding leaves alone: `*`, `-`, `.`, `_`, digits and
/// letters.
pub open spec fn form_byte_unchanged(b: u8) -> bool {
    b == 42 || b == 45 || b == 46 || b == 95 || (48 <= b <= 57) || (65 <= b <= 90) || (97 <= b
        <= 122)
}

/// The uppercase hex digit of a value below 16.
pub open spec fn hex_upper(d: int) -> char {
    if d < 10 {
        ((48 + d) as u8) as char
    } else {
        ((55 + d) as u8) as char
    }
}

/// What one byte form-urlencodes to: itself, `+` for a space, or `%XX`.
pub open spec fn form_byte_chars(b: u8) -> Seq<char> {
    if b == 32 {
        seq!['+']
    } else if form_byte_unchanged(b) {
        seq![b as char]
    } else {
        seq!['%', hex_upper(b as int / 16), hex_upper(b as int % 16)]
    }
}

/// The form-urlencoding of a byte string.
pub open spec fn spec_form_urlencode(bytes: Seq<u8>) -> Seq<char>
    decreases bytes.len(),
{
    if bytes.len() == 0 {
        Seq::<char>::empty()
    } else {
        form_byte_chars(bytes[0]) + spec_form_urlencode(bytes.drop_first())
    }
}

/// Relies on url::form_urlencoded::byte_serialize: the
/// application/x-www-form-urlencoded serialization of the bytes —
/// alphanumerics and `*-._` unchanged, space as `+`, anything else as `%`
/// and two uppercase hex digits.
#[verifier::external_body]
fn form_urlencode_bytes(bytes: &Vec<u8>) -> (r: String)
    ensures
        r@ == spec_form_urlencode(bytes@),
{
    url::form_urlencoded::byte_serialize(bytes.as_slice()).collect::<String>()
}

/// The bytes of the fixed local peer id prefix.
pub open spec fn spec_peer_id_prefix() -> Seq<u8> {
    seq![45u8, 114u8, 84u8, 48u8, 48u8, 48u8, 49u8, 45u8]
}

/// A fresh 20-byte local peer id: the fixed prefix and twelve random
/// lowercase letters.
pub fn generate_peer_id() -> (r: Vec<u8>)
    ensures
        r@.len() == 20,
        r@.subrange(0, 8) == spec_peer_id_prefix(),
        forall|i: int| 8 <= i < 20 ==> 97 <= #[trigger] r@[i] <= 122,
{
    let mut r: Vec<u8> = Vec::new();
    r.push(45);
    r.push(114);
    r.push(84);
    r.push(48);
    r.push(48);
    r.push(48);
    r.push(49);
    r.push(45);
    let mut i: usize = 8;
    while i < 20
        invariant
            8 <= i <= 20,
            r@.len() == i,
            r@.subrange(0, 8) =~= spec_peer_id_prefix(),
            forall|q: int| 8 <= q < i ==> 97 <= #[trigger] r@[q] <= 122,
        decreases 20 - i,
    {
        let letter: u8 = 97 + (crate::pieces::random_usize() % 26) as u8;
        r.push(letter);
        assert(r@.subrange(0, 8) =~= spec_peer_id_prefix());
        i = i + 1;
    }
    r
}


/// One dictionary-form peer entry parses: a dictionary with a text `ip` and
/// an integer `port`.
pub open spec fn peer_entry_ok(v: BencodeValue) -> bool {
    match v {
        BencodeValue::Dict(d) => {
            &&& dict_get(d@, "ip"@) matches Some(
                BencodeValue::String(BencodeString::String(_)),
            )
            &&& dict_get(d@, "port"@) matches Some(BencodeValue::Int(_))
        },
        _ => false,
    }
}

/// The reason the first malformed entry is rejected under.
pub open spec fn peer_entry_err(v: BencodeValue) -> Seq<char> {
    match v {
        BencodeValue::Dict(d) => {
            if !(dict_get(d@, "ip"@) matches Some(
                BencodeValue::String(BencodeString::String(_)),
            )) {
                "ip key not found"@
            } else {
                "port key not found"@
            }
        },
        _ => "invalid peers"@,
    }
}

/// The peer a well-formed dictionary entry names.
pub open spec fn peer_entry_matches(v: BencodeValue, p: Peer) -> bool {
    match v {
        BencodeValue::Dict(d) => {
            &&& (match dict_get(d@, "ip"@) {
                Some(BencodeValue::String(BencodeString::String(ip))) => match p.addr {
                    PeerAddr::Host(h) => h@ == ip@,
                    _ => false,
                },
                _ => false,
            })
            &&& (match dict_get(d@, "port"@) {
                Some(BencodeValue::Int(q)) => p.port == q as u16,
                _ => false,
            })
            &&& (match dict_get(d@, "peer id"@) {
                Some(BencodeValue::String(BencodeString::String(s))) => match p.peer_id {
                    Some(id) => id@ == vstd::utf8::encode_utf8(s@),
                    None => false,
                },
                Some(BencodeValue::String(BencodeString::Bytes(b))) => match p.peer_id {
                    Some(id) => id@ == b@,
                    None => false,
                },
                _ => p.peer_id is None,
            })
        },
        _ => false,
    }
}

/// The index of the first malformed entry (the length when all parse).
pub open spec fn first_bad_peer(items: Seq<BencodeValue>) -> int
    decreases items.len(),
{
    if items.len() == 0 {
        0
    } else if !peer_entry_ok(items[0]) {
        0
    } else {
        1 + first_bad_peer(items.drop_first())
    }
}

/// When everything before `i` parses and `i` does not (or is the end), `i`
/// is the first malformed entry.
proof fn lemma_first_bad_peer_at(items: Seq<BencodeValue>, i: int)
    requires
        0 <= i <= items.len(),
        forall|q: int| 0 <= q < i ==> peer_entry_ok(#[trigger] items[q]),
        i < items.len() ==> !peer_entry_ok(items[i]),
    ensures
        first_bad_peer(items) == i,
    decreases i,
{
    if items.len() > 0 {
        if i == 0 {
        } else {
            assert(peer_entry_ok(items[0]));
            assert forall|q: int| 0 <= q < i - 1 implies peer_entry_ok(
                #[trigger] items.drop_first()[q],
            ) by {
                assert(items.drop_first()[q] == items[q + 1]);
            }
            assert(i - 1 < items.drop_first().len() ==> !peer_entry_ok(
                items.drop_first()[i - 1],
            ));
            lemma_first_bad_peer_at(items.drop_first(), i - 1);
        }
    }
}

/// The peers an announce response names: 6-byte address/port records in the
/// compact byte format, or a list of dictionaries with `ip`, `port` and an
/// optional `peer id`.
pub fn parse_peers(value: &BencodeValue) -> (r: Result<Vec<Peer>, TrackerError>)
    ensures
        match *value {
            BencodeValue::String(BencodeString::Bytes(raw)) => {
                &&& (raw@.len() % 6 == 0) <==> r is Ok
                &&& r matches Ok(peers) ==> (peers@.len() == raw@.len() / 6 && (forall|k: int|
                    0 <= k < peers@.len() ==> (#[trigger] peers@[k]).addr == PeerAddr::V4(
                        raw@[6 * k],
                        raw@[6 * k + 1],
                        raw@[6 * k + 2],
                        raw@[6 * k + 3],
                    ) && peers@[k].port == raw@[6 * k + 4] * 256 + raw@[6 * k + 5] && peers@[
                        k
                    ].peer_id is None))
            },
            BencodeValue::List(items) => {
                let fb = first_bad_peer(items@);
                if fb == items@.len() {
                    r matches Ok(peers) && peers@.len() == items@.len() && (forall|k: int|
                        0 <= k < items@.len() ==> peer_entry_matches(
                            #[trigger] items@[k],
                            peers@[k],
                        ))
                } else {
                    r matches Err(TrackerError::GetPeersFailure(m)) && m@ == peer_entry_err(
                        items@[fb],
                    )
                }
            },
            _ => r matches Err(TrackerError::GetPeersFailure(m)) && m@ == "invalid peers"@,
        },
{
    match value {
        BencodeValue::String(BencodeString::Bytes(raw)) => {
            if raw.len() % 6 != 0 {
                return Err(TrackerError::GetPeersFailure("invalid peers".to_owned()));
            }
            let count = raw.len() / 6;
            let mut peers: Vec<Peer> = Vec::new();
            let mut k: usize = 0;
            while k < count
                invariant
                    k <= count,
                    count == raw@.len() / 6,
                    raw@.len() % 6 == 0,
                    *value == BencodeValue::String(BencodeString::Bytes(*raw)),
                    peers@.len() == k,
                    forall|q: int|
                        0 <= q < k ==> (#[trigger] peers@[q]).addr == PeerAddr::V4(
                            raw@[6 * q],
                            raw@[6 * q + 1],
                            raw@[6 * q + 2],
                            raw@[6 * q + 3],
                        ) && peers@[q].port == raw@[6 * q + 4] * 256 + raw@[6 * q + 5] && peers@[
                            q
                        ].peer_id is None,
                decreases count - k,
            {
                let rl = raw.len();
                proof {
                    vstd::arithmetic::div_mod::lemma_fundamental_div_mod(raw@.len() as int, 6);
                }
                assert(6 * k + 5 < rl);
                let base = 6 * k;
                let port: u16 = (raw[base + 4] as u16) * 256 + (raw[base + 5] as u16);
                peers.push(
                    Peer {
                        addr: PeerAddr::V4(raw[base], raw[base + 1], raw[base + 2], raw[base + 3]),
                        port,
                        peer_id: None,
                    },
                );
                k = k + 1;
            }
            Ok(peers)
        },
        BencodeValue::List(items) => {
            let mut peers: Vec<Peer> = Vec::new();
            let mut k: usize = 0;
            while k < items.len()
                invariant
                    k <= items@.len(),
                    *value == BencodeValue::List(*items),
                    peers@.len() == k,
                    forall|q: int| 0 <= q < k ==> peer_entry_ok(#[trigger] items@[q]),
                    forall|q: int|
                        0 <= q < k ==> peer_entry_matches(#[trigger] items@[q], peers@[q]),
                decreases items@.len() - k,
            {
                let ghost peers_before = peers@;
                match &items[k] {
                    BencodeValue::Dict(dict) => {
                        let ip = match crate::bencode::dict_lookup(dict, "ip") {
                            Some(BencodeValue::String(BencodeString::String(s))) => s.clone(),
                            _ => {
                                proof {
                                    lemma_first_bad_peer_at(items@, k as int);
                                }
                                return Err(
                                    TrackerError::GetPeersFailure("ip key not found".to_owned()),
                                );
                            },
                        };
                        let port = match crate::bencode::dict_lookup(dict, "port") {
                            Some(BencodeValue::Int(p)) => *p,
                            _ => {
                                proof {
                                    lemma_first_bad_peer_at(items@, k as int);
                                }
                                return Err(
                                    TrackerError::GetPeersFailure("port key not found".to_owned()),
                                );
                            },
                        };
                        let peer_id = match crate::bencode::dict_lookup(dict, "peer id") {
                            Some(BencodeValue::String(BencodeString::String(s))) => Some(
                                s.as_str().as_bytes_vec(),
                            ),
                            Some(BencodeValue::String(BencodeString::Bytes(b))) => Some(b.clone()),
                            _ => None,
                        };
                        peers.push(
                            Peer {
                                addr: PeerAddr::Host(ip),
                                port: #[verifier::truncate] (port as u16),
                                peer_id,
                            },
                        );
                        proof {
                            assert(peer_entry_matches(items@[k as int], peers@[k as int]));
                            assert forall|q: int| 0 <= q < k + 1 implies peer_entry_matches(
                                #[trigger] items@[q],
                                peers@[q],
                            ) by {
                                if q < k {
                                    assert(peers@[q] == peers_before[q]);
                                }
                            }
                        }
                    },
                    _ => {
                        proof {
                            lemma_first_bad_peer_at(items@, k as int);
                        }
                        return Err(TrackerError::GetPeersFailure("invalid peers".to_owned()));
                    },
                }
                k = k + 1;
            }
            proof {
                lemma_first_bad_peer_at(items@, items@.len() as int);
            }
            Ok(peers)
        },
        _ => Err(TrackerError::GetPeersFailure("invalid peers".to_owned())),
    }
}


/// The key holds an integer.
pub open spec fn req_int_ok(d: Seq<(String, BencodeValue)>, key: Seq<char>) -> bool {
    dict_get(d, key) matches Some(BencodeValue::Int(_))
}


/// The announced peer set parses: compact bytes in whole 6-byte records, or
/// a list of well-formed peer dictionaries.
pub open spec fn peers_value_parseable(v: BencodeValue) -> bool {
    match v {
        BencodeValue::String(BencodeString::Bytes(raw)) => raw@.len() % 6 == 0,
        BencodeValue::List(items) => first_bad_peer(items@) == items@.len(),
        _ => false,
    }
}

/// A success-shaped announce response: the required integer fields, the
/// well-shaped optional fields, and a parseable peer set.
pub open spec fn success_response_ok(v: BencodeValue) -> bool {
    match v {
        BencodeValue::Dict(d) => {
            &&& req_int_ok(d@, "interval"@)
            &&& crate::metainfo::opt_int_ok(d@, "min interval"@)
            &&& crate::metainfo::opt_string_ok(d@, "tracker id"@)
            &&& req_int_ok(d@, "complete"@)
            &&& req_int_ok(d@, "incomplete"@)
            &&& (match dict_get(d@, "peers"@) {
                Some(pv) => peers_value_parseable(pv),
                None => false,
            })
        },
        _ => false,
    }
}

/// Reads a successful announce: `interval`, `complete`, `incomplete` and
/// `peers` are required, `min interval` and `tracker id` optional; the
/// first field of the wrong shape is reported, and a success-shaped
/// response always parses.
pub fn parse_success_response(value: &BencodeValue) -> (r: Result<
    TrackerSuccessResponse,
    TrackerError,
>)
    ensures
        success_response_ok(*value) ==> r is Ok,
        !(*value matches BencodeValue::Dict(_)) ==> (r matches Err(
            TrackerError::ResponseParseError(m),
        ) && m@ == "interval key not found"@),
        (match *value {
            BencodeValue::Dict(d) => {
                let dd = d@;
                &&& (!req_int_ok(dd, "interval"@) ==> (r matches Err(
                    TrackerError::ResponseParseError(m),
                ) && m@ == "interval key not found"@))
                &&& (req_int_ok(dd, "interval"@) && !crate::metainfo::opt_int_ok(dd, "min interval"@) ==> (
                r matches Err(TrackerError::ResponseParseError(m)) && m@
                    == "min interval key not found"@))
                &&& (req_int_ok(dd, "interval"@) && crate::metainfo::opt_int_ok(dd, "min interval"@)
                    && !crate::metainfo::opt_string_ok(dd, "tracker id"@) ==> (r matches Err(
                    TrackerError::ResponseParseError(m),
                ) && m@ == "tracker id key not found"@))
                &&& (req_int_ok(dd, "interval"@) && crate::metainfo::opt_int_ok(dd, "min interval"@)
                    && crate::metainfo::opt_string_ok(dd, "tracker id"@) && !req_int_ok(
                    dd,
                    "complete"@,
                ) ==> (r matches Err(TrackerError::ResponseParseError(m)) && m@
                    == "complete key not found"@))
                &&& (req_int_ok(dd, "interval"@) && crate::metainfo::opt_int_ok(dd, "min interval"@)
                    && crate::metainfo::opt_string_ok(dd, "tracker id"@) && req_int_ok(
                    dd,
                    "complete"@,
                ) && !req_int_ok(dd, "incomplete"@) ==> (r matches Err(
                    TrackerError::ResponseParseError(m),
                ) && m@ == "incomplete key not found"@))
                &&& (req_int_ok(dd, "interval"@) && crate::metainfo::opt_int_ok(dd, "min interval"@)
                    && crate::metainfo::opt_string_ok(dd, "tracker id"@) && req_int_ok(
                    dd,
                    "complete"@,
                ) && req_int_ok(dd, "incomplete"@) && !(match dict_get(dd, "peers"@) {
                    Some(pv) => peers_value_parseable(pv),
                    None => false,
                }) ==> (r matches Err(TrackerError::ResponseParseError(m)) && m@
                    == "peers key not found"@))
            },
            _ => true,
        }),
        r matches Ok(s) ==> (match *value {
            BencodeValue::Dict(d) => (match dict_get(d@, "interval"@) {
                Some(BencodeValue::Int(i)) => s.interval == i,
                _ => false,
            }) && (match dict_get(d@, "min interval"@) {
                Some(BencodeValue::Int(i)) => s.min_interval == Some(i),
                _ => s.min_interval is None,
            }) && (match dict_get(d@, "tracker id"@) {
                Some(BencodeValue::String(BencodeString::String(tid))) => (match s.tracker_id {
                    Some(t) => t@ == tid@,
                    None => false,
                }),
                _ => s.tracker_id is None,
            }) && (match dict_get(d@, "complete"@) {
                Some(BencodeValue::Int(i)) => s.complete == i,
                _ => false,
            }) && (match dict_get(d@, "incomplete"@) {
                Some(BencodeValue::Int(i)) => s.incomplete == i,
                _ => false,
            }) && dict_get(d@, "peers"@) is Some,
            _ => false,
        }),
{
    let interval = match value.get_value("interval") {
        Some(v) => match v {
            BencodeValue::Int(i) => *i,
            _ => {
                return Err(TrackerError::ResponseParseError("interval key not found".to_owned()));
            },
        },
        None => {
            return Err(TrackerError::ResponseParseError("interval key not found".to_owned()));
        },
    };
    let min_interval = match value.get_value("min interval") {
        Some(v) => match v {
            BencodeValue::Int(i) => Some(*i),
            _ => {
                return Err(
                    TrackerError::ResponseParseError("min interval key not found".to_owned()),
                );
            },
        },
        None => None,
    };
    let tracker_id = match value.get_value("tracker id") {
        Some(v) => match v {
            BencodeValue::String(BencodeString::String(s)) => Some(s.clone()),
            _ => {
                return Err(
                    TrackerError::ResponseParseError("tracker id key not found".to_owned()),
                );
            },
        },
        None => None,
    };
    let complete = match value.get_value("complete") {
        Some(v) => match v {
            BencodeValue::Int(i) => *i,
            _ => {
                return Err(TrackerError::ResponseParseError("complete key not found".to_owned()));
            },
        },
        None => {
            return Err(TrackerError::ResponseParseError("complete key not found".to_owned()));
        },
    };
    let incomplete = match value.get_value("incomplete") {
        Some(v) => match v {
            BencodeValue::Int(i) => *i,
            _ => {
                return Err(
                    TrackerError::ResponseParseError("incomplete key not found".to_owned()),
                );
            },
        },
        None => {
            return Err(TrackerError::ResponseParseError("incomplete key not found".to_owned()));
        },
    };
    let peers = match value.get_value("peers") {
        Some(v) => match parse_peers(v) {
            Ok(p) => p,
            Err(_) => {
                return Err(TrackerError::ResponseParseError("peers key not found".to_owned()));
            },
        },
        None => {
            return Err(TrackerError::ResponseParseError("peers key not found".to_owned()));
        },
    };
    Ok(TrackerSuccessResponse { interval, min_interval, tracker_id, complete, incomplete, peers })
}

/// Sorts an announce response: a `failure reason` makes it a failure,
/// anything else must parse as a success.
pub fn to_tracker_response(parsed_value: &BencodeValue) -> (r: Result<
    TrackerResponse,
    TrackerError,
>)
    ensures
        (match *parsed_value {
            BencodeValue::Dict(d) => match dict_get(d@, "failure reason"@) {
                Some(BencodeValue::String(BencodeString::String(s))) => r matches Ok(
                    TrackerResponse::Failure(f),
                ) && f.failure_reason@ == s@,
                Some(_) => r matches Err(TrackerError::ResponseParseError(m)) && m@
                    == "failure reason"@,
                None => r matches Ok(tr) ==> tr matches TrackerResponse::Success(_),
            },
            _ => r matches Ok(tr) ==> tr matches TrackerResponse::Success(_),
        }),
        (match *parsed_value {
            BencodeValue::Dict(d) => dict_get(d@, "failure reason"@) is None,
            _ => false,
        }) && success_response_ok(*parsed_value) ==> (r matches Ok(tr) && tr matches
            TrackerResponse::Success(_)),
{
    match parsed_value.get_value("failure reason") {
        Some(v) => match v {
            BencodeValue::String(BencodeString::String(reason)) => Ok(
                TrackerResponse::Failure(
                    TrackerFailureResponse { failure_reason: reason.clone() },
                ),
            ),
            _ => Err(TrackerError::ResponseParseError("failure reason".to_owned())),
        },
        None => {
            let success = parse_success_response(parsed_value)?;
            Ok(TrackerResponse::Success(success))
        },
    }
}

/// The tracker-facing state: the torrent's metainfo, our peer id, and the
/// last announce interval the tracker asked for.
#[derive(Debug)]
pub struct Tracker {
    metainfo: Metainfo,
    peer_id: Vec<u8>,
    last_interval: Option<i64>,
}

impl Tracker {
    /// The metainfo the tracker was built over.
    pub closed spec fn spec_metainfo(self) -> Metainfo {
        self.metainfo
    }

    /// The local peer id bytes.
    pub closed spec fn spec_peer_id(self) -> Seq<u8> {
        self.peer_id@
    }

    /// The metainfo is intact and the peer id has the generated shape.
    pub open spec fn wf(self) -> bool {
        &&& self.spec_metainfo().wf()
        &&& self.spec_peer_id().len() == 20
        &&& forall|i: int| 0 <= i < 20 ==> 32 <= #[trigger] self.spec_peer_id()[i] < 127
    }

    /// Builds the tracker state from a parsed torrent document, drawing a
    /// fresh peer id.
    pub fn new(torrent_content: BencodeValue) -> (r: Result<Tracker, TrackerError>)
        ensures
            r matches Ok(t) ==> (t.wf() && t.spec_metainfo().spec_content() == torrent_content),
            (match crate::metainfo::as_dict(torrent_content) {
                Some(d) => crate::metainfo::metainfo_ok(d) ==> r is Ok,
                None => true,
            }),
    {
        let metainfo = match Metainfo::new(torrent_content) {
            Ok(m) => m,
            Err(_) => {
                return Err(TrackerError::InvalidMetainfo);
            },
        };
        let peer_id = generate_peer_id();
        proof {
            assert forall|i: int| 0 <= i < 20 implies 32 <= #[trigger] peer_id@[i] < 127 by {
                if i < 8 {
                    assert(peer_id@[i] == peer_id@.subrange(0, 8)[i]);
                    assert(peer_id@.subrange(0, 8)[i] == spec_peer_id_prefix()[i]);
                }
            }
        }
        Ok(Tracker { metainfo, peer_id, last_interval: None })
    }

    /// The torrent's metainfo.
    pub fn get_metainfo(&self) -> (r: &Metainfo)
        ensures
            *r == self.spec_metainfo(),
    {
        &self.metainfo
    }

    /// A copy of the local peer id.
    pub fn peer_id(&self) -> (r: Vec<u8>)
        ensures
            r@ == self.spec_peer_id(),
    {
        self.peer_id.clone()
    }

    /// The last interval the tracker asked us to wait between announces.
    pub fn last_interval(&self) -> (r: Option<i64>)
        ensures
            r == self.spec_last_interval(),
    {
        self.last_interval
    }

    /// The stored announce interval.
    pub closed spec fn spec_last_interval(self) -> Option<i64> {
        self.last_interval
    }

    /// The announce URL: the metainfo's announce address with the
    /// form-urlencoded info hash, our peer id, the listen port and the want
    /// count as query parameters.
    pub fn build_announce_url(&self) -> (r: Result<String, TrackerError>)
        requires
            self.wf(),
        ensures
            r is Ok,
            r matches Ok(u) ==> (match as_dict(self.spec_metainfo().spec_content()) {
                Some(d) => match dict_get(d, "info"@) {
                    Some(info) => u@ == self.spec_metainfo().announce@ + "?info_hash="@
                        + spec_form_urlencode(
                        sha1_of(crate::bencode::encoder::spec_encode(info)),
                    ) + "&peer_id="@ + spec_form_urlencode(self.spec_peer_id())
                        + "&port=6881&numwant=100"@,
                    None => false,
                },
                None => false,
            }),
    {
        let info_hash = match self.metainfo.get_info_hash() {
            Ok(h) => h,
            Err(_) => {
                return Err(TrackerError::InvalidInfoHash);
            },
        };
        let encoded_hash = form_urlencode_bytes(&info_hash);
        let encoded_peer_id = form_urlencode_bytes(&self.peer_id);
        let mut url = self.metainfo.announce.clone();
        url.append("?info_hash=");
        url.append(encoded_hash.as_str());
        url.append("&peer_id=");
        url.append(encoded_peer_id.as_str());
        url.append("&port=6881&numwant=100");
        Ok(url)
    }

    /// Applies an announce response: a success stores the new interval and
    /// yields the peers, a failure carries the tracker's reason.
    pub fn handle_announce_response(&mut self, response: TrackerResponse) -> (r: Result<
        Vec<Peer>,
        TrackerError,
    >)
        requires
            old(self).wf(),
        ensures
            final(self).wf(),
            final(self).spec_metainfo() == old(self).spec_metainfo(),
            final(self).spec_peer_id() == old(self).spec_peer_id(),
            match response {
                TrackerResponse::Success(s) => r matches Ok(p) && p == s.peers
                    && final(self).spec_last_interval() == Some(s.interval),
                TrackerResponse::Failure(f) => r matches Err(TrackerError::GetPeersFailure(m)) && m
                    == f.failure_reason
                    && final(self).spec_last_interval() == old(self).spec_last_interval(),
            },
    {
        match response {
            TrackerResponse::Success(s) => {
                self.last_interval = Some(s.interval);
                Ok(s.peers)
            },
            TrackerResponse::Failure(f) => Err(TrackerError::GetPeersFailure(f.failure_reason)),
        }
    }
}

} // verus!
