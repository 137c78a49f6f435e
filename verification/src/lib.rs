//! Core of an audio-catalog server: a verified indexing pipeline and a
//! hash-addressed resolution layer.
//!
//! Audio files discovered under configured source roots are probed, tagged
//! and fingerprinted with an Adler-32 checksum over their decoded packet
//! payloads; the resulting entries are upserted into a catalog that keeps
//! exactly one entry per distinct content hash. Stream requests are resolved
//! from such a hash back to a filesystem path.

pub mod config;
pub mod fetching;
pub mod hashing;
pub mod laws;
pub mod library;
