//! Core of a BitTorrent peer-to-peer data-exchange subsystem: a bencode
//! metadata codec, the peer wire protocol codecs (handshake and message
//! framing), a block-level piece acquisition and verification engine, the
//! UDP tracker announce codec, and SHA-1.
#![verifier::loop_isolation(false)]

pub mod bitfield;
pub mod connection;
pub mod determinism;
pub mod handshake;
pub mod message;
pub mod metainfo;
pub mod piece_manager;
pub mod sha1;
pub mod text;
pub mod torrent;
pub mod tracker;
pub mod wire;
