//! A BitTorrent v1 leeching client library.
//!
//! The verified core covers the peer-wire message codec, the piece/block
//! scheduler with its rarest-first policy, the block-to-file offset mapping,
//! the per-peer protocol state machine with its message dispatcher, the
//! bencode codec, and the metainfo and tracker-response parsing.  The
//! surrounding process (sockets, disk, HTTP announce, command line) lives
//! outside the library and talks to it through plain values.

pub mod bencode;
pub mod bitfield;
pub mod engine;
pub mod filemap;
pub mod handshake;
pub mod message;
pub mod metainfo;
pub mod pieces;
pub mod sha1sum;
pub mod tracker;
pub mod util;
