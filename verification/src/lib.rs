//! A verified bencode codec and BitTorrent metainfo reader.
//!
//! The crate decodes the bencode serialization format into a [`value::Value`]
//! tree, re-encodes such trees canonically (dictionary keys sorted by byte
//! value), maps a decoded tree onto a typed torrent description, and computes
//! the torrent's info hash from the canonical encoding of its `info`
//! dictionary. The round-trip law between the decoder and the canonical
//! encoder is proved in [`roundtrip`].

pub mod decode;
pub mod encode;
pub mod executors;
pub mod hashing;
pub mod roundtrip;
pub mod torrent;
pub mod value;
