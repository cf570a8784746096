//! Reading, constructing and writing BitTorrent metainfo, and parsing
//! tracker replies, with the byte-level behaviour of every operation
//! verified.
//!
//! The layers, bottom up:
//!
//! - [`bencode`]: the wire codec.  [`bencode::BencodeElem`] carries a
//!   value; encoding is specified byte for byte by `bencode::encoded`,
//!   and parsing by the grammar in [`read`].
//! - [`roundtrip`]: the codec's two round-trip laws, proved: what was
//!   parsed re-encodes to the very input, and what was encoded parses
//!   back to the very value.
//! - [`torrent`]: the metainfo model, its reader, its writer and the
//!   info hash.
//! - [`builder`]: validation and streaming piece hashing for making a
//!   torrent out of file contents.
//! - [`tracker`]: announce and scrape replies, with both peer list
//!   encodings.
//! - [`display`]: the human-readable text each tracker type prints,
//!   specified byte for byte.
//!
//! Reading and writing the filesystem is left to the caller, who hands
//! byte contents in and takes byte contents out.

pub mod bencode;
pub mod builder;
pub mod display;
pub mod error;
pub mod hash;
pub mod ip;
pub mod read;
pub mod roundtrip;
pub mod strings;
pub mod torrent;
pub mod tracker;
