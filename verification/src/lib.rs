//! Batch media-transcoding core: directory-walk candidate selection,
//! output-path derivation, per-candidate skip/process decisions, and the
//! fixed encoder argument templates. The surrounding binary performs the
//! filesystem traversal, existence checks and process spawning; everything
//! that decides *what* to do is here, with contracts.

pub mod candidate;
pub mod encoder;
pub mod naming;
pub mod plan;
