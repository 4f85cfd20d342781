//! A flat-archive codec: a directory tree's files are serialized into one
//! contiguous byte blob (a header, a metadata table, a path table and a
//! content region), and reconstructed from it by offset-driven random access.
//!
//! The codec itself is pure byte manipulation and is fully verified; reading
//! source files and materializing extracted ones is left to callers.

pub mod decode;
pub mod encode;
pub mod entry;
pub mod error;
pub mod layout;
pub mod paths;
pub mod theorems;
pub mod utf8;

pub use entry::FileEntry;
pub use error::ZapError;
