//! Reading and writing game-resource archives: a header, an optional path footer, segment
//! payloads, and an index of entries keyed by the FNV-1a/64 hash of their resource path.
pub mod archive;
pub mod cr2w;
pub mod dictionary;
pub mod error;
pub mod extensions;
pub mod hashing;
pub mod io;
pub mod kraken;
pub mod laws;
pub mod lxrs;
pub mod pack;
pub mod records;
pub mod zip_archive;
