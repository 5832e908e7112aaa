//! A verified core for a media-file inspector.
//!
//! The library models probe records (container and stream metadata of a
//! media file), formats them into a ten-column display row, caches them
//! keyed by file identity with a size/mtime signature, and sorts and
//! filters rows with typed comparators reconstructed from the formatted
//! strings. All I/O (file discovery, the external prober, persistence,
//! table rendering) lives outside the library and hands in plain values.

pub mod cache;
pub mod fields;
pub mod laws;
pub mod media;
pub mod num;
pub mod query;
pub mod record;
pub mod sort;
pub mod text;
