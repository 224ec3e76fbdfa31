//! The records of the index: one entry per tracked file, and the header that
//! opens the index file.
use vstd::prelude::*;
use vstd::string::*;
use vstd::utf8::*;

verus! {

/// What the index records of one tracked file.
#[derive(Debug)]
pub struct CacheEntry {
    /// Creation time, in nanoseconds since the Unix epoch.
    pub created: u128,
    /// Last modification time, in nanoseconds since the Unix epoch.
    pub modified: u128,
    /// Length of the file in bytes.
    pub size: u64,
    /// Digest that names the file's blob object.
    pub sha1: [u8; 20],
    /// Length of `name` in bytes, as stored in the index file.
    pub namelen: u16,
    /// Path of the file.
    pub name: String,
}

/// The fixed-size header that opens the index file.
#[derive(Debug)]
pub struct CacheHeader {
    /// The four bytes `DIRC`, read as a big-endian number.
    pub signature: u32,
    /// Format version.
    pub version: i32,
    /// Number of entries that follow.
    pub nr_entries: i32,
    /// Digest of the header fields before it and of all the entries.
    pub sha1: [u8; 20],
}

/// The bytes of an entry's name, by which the index is ordered.
pub open spec fn entry_key(ce: CacheEntry) -> Seq<u8> {
    encode_utf8(ce.name@)
}


impl CacheEntry {
    /// The entry for a file of the given name, times, size and blob digest;
    /// the recorded name length is the name's length in bytes, kept to its
    /// low 16 bits.
    pub fn new(name: String, created: u128, modified: u128, size: u64, sha1: [u8; 20]) -> (res:
        CacheEntry)
        ensures
            res.name == name,
            res.created == created,
            res.modified == modified,
            res.size == size,
            res.sha1 == sha1,
            res.namelen as int == entry_key(res).len() % 0x1_0000,
    {
        let len = name.as_str().as_bytes().len();
        let namelen = (len % 0x1_0000) as u16;
        CacheEntry { created, modified, size, sha1, namelen, name }
    }
}

} // verus!
