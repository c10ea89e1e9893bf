//! A bencode codec with a verified decoder and canonical encoder, and a
//! torrent-descriptor metadata extractor with info-hash computation.

/// Values, their model, and sorted dictionary entries.
pub mod value;
/// The decoder and the grammar it follows.
pub mod decode;
/// The canonical encoder.
pub mod encode;
/// Torrent descriptor metadata and the info hash.
pub mod torrent;
/// What decoding and encoding guarantee together.
pub mod round_trip;

