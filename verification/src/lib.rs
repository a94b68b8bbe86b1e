//! The core of a BitTorrent client for single-file torrents: the bencode
//! format, the metainfo of a torrent and the hash that names it, the request
//! to the tracker and its answer, and the exchange with a peer up to pieces
//! that have been checked against their digests.
//!
//! The library does no input or output. It reads and writes bytes that its
//! caller has fetched or will send, and says in the contract of each function
//! what comes out for what goes in.
pub mod bencode;
pub mod buffer;
pub mod dictionary;
pub mod digest;
pub mod digits;
pub mod download;
pub mod error;
pub mod grammar;
pub mod handshake;
pub mod json;
pub mod message;
pub mod order;
pub mod peer;
pub mod pieces;
pub mod query;
pub mod roundtrip;
pub mod text;
pub mod torrent;
pub mod tracker;
pub mod utils;
pub mod wire;
