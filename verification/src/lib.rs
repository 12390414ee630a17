//! Post-order materialization of a directory tree into content-addressed
//! blocks: every directory is encoded into one block whose identifier is the
//! hash of its bytes, children always rendered before their parent.

pub mod types;
pub mod varint;
pub mod encode;
pub mod hashing;
pub mod model;
pub mod path;
pub mod iter;
