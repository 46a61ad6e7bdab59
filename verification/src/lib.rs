//! Resumable backup pipeline: path filtering, per-file transcoding and the
//! ledger of content hashes that makes a run resumable.

pub mod backup;
pub mod compression;
pub mod config;
pub mod guarantees;
pub mod hashing;
pub mod path;
pub mod path_lemmas;
