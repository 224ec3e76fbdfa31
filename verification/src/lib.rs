//! A small content-addressed file tracker: an index of tracked files kept
//! sorted by name, an on-disk index format protected by a SHA-1 checksum,
//! and zlib-compressed objects (blobs, trees, commits) named by the SHA-1 of
//! their compressed bytes.

pub mod cache;
pub mod commit;
pub mod constants;
pub mod diff;
pub mod encoding;
pub mod external;
pub mod hex;
pub mod index_file;
pub mod model;
pub mod object;
