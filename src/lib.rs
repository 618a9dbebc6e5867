//! A minimal peer-to-peer file-distribution client core: bencode decoding and
//! canonical encoding, torrent descriptors and their info hash, tracker
//! queries with compact peer lists, and the peer handshake message.
pub mod bencode;
pub mod decoder;
pub mod encoder;
pub mod peer_handshake;
pub mod round_trip;
pub mod torrent;
pub mod torrent_file;
pub mod tracker;
pub mod url;
