//! Finds subtitles for local video files in a remote subtitle catalog.
//!
//! Videos are identified by a checksum of their content, the catalog's
//! candidates are narrowed down to the best rated one per video, and the
//! downloaded payload is decoded back into the subtitle file's bytes.
//! Network and file access stay with the caller: the library builds the
//! remote calls, reads their responses and computes everything in between.

pub mod error;
pub mod hash;
pub mod movie;
pub mod rpc;
pub mod text;
pub mod user;

pub use error::Error;
pub use hash::os_hash;
