//! The index file: a header (signature, version, entry count, checksum)
//! followed by the entries; the checksum is the SHA-1 digest of everything
//! else in the file.
use vstd::prelude::*;
use vstd::string::*;
use vstd::utf8::*;

use crate::encoding::{
    be_bytes, be_value, lemma_be_bytes_len, lemma_be_roundtrip, lemma_be_value_bound,
    lemma_pow256_values, push_be, push_range, read_be,
};
use crate::external::{sha1_digest, sha1_of, string_from_utf8};
use crate::model::{entry_key, CacheEntry, CacheHeader};

verus! {

/// `DIRC`, the signature that opens the index file.
pub const CACHE_SIGNATURE: u32 = 0x44495243u32;

/// Format version written in the header.
pub const CACHE_VERSION: i32 = 1;

/// Offset of the checksum in the index file; the entries start 20 bytes later.
pub const SHA1_OFFSET: usize = 12;

/// Two's-complement bits of a 32-bit signed number, as an unsigned number.
pub open spec fn i32_bits(v: i32) -> nat {
    if v < 0 {
        (v + 0x1_0000_0000) as nat
    } else {
        v as nat
    }
}

/// The signed number that 32 bits denote in two's complement.
pub open spec fn i32_of_bits(u: nat) -> int {
    if u >= 0x8000_0000 {
        u - 0x1_0000_0000
    } else {
        u as int
    }
}

/// The header fields that precede the checksum: signature, version and entry
/// count, each four bytes big-endian.
pub open spec fn header_fields(nr_entries: i32) -> Seq<u8> {
    be_bytes(CACHE_SIGNATURE as nat, 4) + be_bytes(i32_bits(CACHE_VERSION), 4) + be_bytes(
        i32_bits(nr_entries),
        4,
    )
}

/// The bytes of one entry: creation and modification times (16 bytes each),
/// size (8), digest (20), name length (2), all big-endian, then the name.
pub open spec fn entry_bytes(ce: CacheEntry) -> Seq<u8> {
    be_bytes(ce.created as nat, 16) + be_bytes(ce.modified as nat, 16) + be_bytes(
        ce.size as nat,
        8,
    ) + ce.sha1@ + be_bytes(ce.namelen as nat, 2) + entry_key(ce)
}

/// The bytes of the entries, one after the other.
pub open spec fn entries_bytes(s: Seq<CacheEntry>) -> Seq<u8>
    decreases s.len(),
{
    if s.len() == 0 {
        seq![]
    } else {
        entry_bytes(s[0]) + entries_bytes(s.drop_first())
    }
}

/// The whole index file for the given entries and entry count.
pub open spec fn index_file_bytes(s: Seq<CacheEntry>, nr_entries: i32) -> Seq<u8> {
    header_fields(nr_entries) + sha1_of(header_fields(nr_entries) + entries_bytes(s))
        + entries_bytes(s)
}

proof fn lemma_entries_bytes_push(s: Seq<CacheEntry>, ce: CacheEntry)
    ensures
        entries_bytes(s.push(ce)) == entries_bytes(s) + entry_bytes(ce),
    decreases s.len(),
{
    if s.len() == 0 {
        assert(s.push(ce).drop_first() =~= s);
        assert(entries_bytes(s.push(ce)) =~= entries_bytes(s) + entry_bytes(ce));
    } else {
        lemma_entries_bytes_push(s.drop_first(), ce);
        assert(s.push(ce).drop_first() =~= s.drop_first().push(ce));
        assert(entries_bytes(s.push(ce)) =~= entries_bytes(s) + entry_bytes(ce));
    }
}

/// Appends the bytes of one entry.
fn push_entry(buf: &mut Vec<u8>, ce: &CacheEntry)
    ensures
        final(buf)@ == old(buf)@ + entry_bytes(*ce),
{
    let ghost start = buf@;
    push_be(buf, ce.created, 16);
    push_be(buf, ce.modified, 16);
    push_be(buf, ce.size as u128, 8);
    buf.extend_from_slice(ce.sha1.as_slice());
    push_be(buf, ce.namelen as u128, 2);
    buf.extend_from_slice(ce.name.as_str().as_bytes());
    assert(buf@ =~= start + entry_bytes(*ce));
}

/// Appends the four bytes of a 32-bit signed number, big-endian.
fn push_i32(buf: &mut Vec<u8>, v: i32)
    ensures
        final(buf)@ == old(buf)@ + be_bytes(i32_bits(v), 4),
{
    let bits: u128 = if v < 0 {
        (v as i64 + 0x1_0000_0000i64) as u128
    } else {
        v as u128
    };
    push_be(buf, bits, 4);
}

/// The bytes of the index file for the given entries: the header, whose
/// checksum is the SHA-1 digest of the header fields and the entries, then the
/// entries. `nr_entries` is written as given.
pub fn serialize_cache(active_cache: &[CacheEntry], nr_entries: i32) -> (res: Vec<u8>)
    ensures
        res@ == index_file_bytes(active_cache@, nr_entries),
        sha1_of(header_fields(nr_entries) + entries_bytes(active_cache@)).len() == 20,
{
    let mut hdr = CacheHeader {
        signature: CACHE_SIGNATURE,
        version: CACHE_VERSION,
        nr_entries: nr_entries,
        sha1: [0u8; 20],
    };
    let mut fields: Vec<u8> = Vec::new();
    push_be(&mut fields, hdr.signature as u128, 4);
    push_i32(&mut fields, hdr.version);
    push_i32(&mut fields, hdr.nr_entries);
    assert(fields@ =~= header_fields(nr_entries));
    let mut entries: Vec<u8> = Vec::new();
    let mut i: usize = 0;
    assert(active_cache@.take(0) =~= seq![]);
    while i < active_cache.len()
        invariant
            i <= active_cache@.len(),
            entries@ == entries_bytes(active_cache@.take(i as int)),
        decreases active_cache@.len() - i,
    {
        push_entry(&mut entries, &active_cache[i]);
        proof {
            lemma_entries_bytes_push(active_cache@.take(i as int), active_cache@[i as int]);
            assert(active_cache@.take(i + 1) =~= active_cache@.take(i as int).push(
                active_cache@[i as int],
            ));
        }
        i = i + 1;
    }
    assert(active_cache@.take(i as int) =~= active_cache@);
    let mut hashed: Vec<u8> = Vec::new();
    hashed.extend_from_slice(fields.as_slice());
    hashed.extend_from_slice(entries.as_slice());
    assert(hashed@ =~= fields@ + entries@);
    hdr.sha1 = sha1_digest(hashed.as_slice());
    let mut out: Vec<u8> = Vec::new();
    out.extend_from_slice(fields.as_slice());
    out.extend_from_slice(hdr.sha1.as_slice());
    out.extend_from_slice(entries.as_slice());
    assert(out@ =~= index_file_bytes(active_cache@, nr_entries));
    out
}


/// Why an index file cannot be read.
#[derive(Debug, PartialEq, Eq, Structural, Clone, Copy)]
pub enum CacheError {
    /// The file ends before a field that the header or an entry announces.
    Truncated,
    /// The checksum does not match the rest of the file.
    HeaderMismatch,
    /// An entry's name is not valid UTF-8.
    InvalidName,
}

/// What the index file records of an entry: creation and modification times,
/// size, digest, name length and name.
pub type EntryModel = (u128, u128, u64, Seq<u8>, u16, Seq<char>);

/// The recorded fields of an entry.
pub open spec fn entry_model(ce: CacheEntry) -> EntryModel {
    (ce.created, ce.modified, ce.size, ce.sha1@, ce.namelen, ce.name@)
}

/// Reads `count` entries from `data` starting at `pos`: the entries, or the
/// first reason why one cannot be read.
pub open spec fn parse_entries(data: Seq<u8>, pos: int, count: nat) -> Result<
    Seq<EntryModel>,
    CacheError,
>
    decreases count,
{
    if count == 0 {
        Ok(seq![])
    } else if pos + 62 > data.len() {
        Err(CacheError::Truncated)
    } else {
        let nl = be_value(data.subrange(pos + 60, pos + 62)) as int;
        if pos + 62 + nl > data.len() {
            Err(CacheError::Truncated)
        } else {
            let nb = data.subrange(pos + 62, pos + 62 + nl);
            if !valid_utf8(nb) {
                Err(CacheError::InvalidName)
            } else {
                let e: EntryModel = (
                    be_value(data.subrange(pos, pos + 16)) as u128,
                    be_value(data.subrange(pos + 16, pos + 32)) as u128,
                    be_value(data.subrange(pos + 32, pos + 40)) as u64,
                    data.subrange(pos + 40, pos + 60),
                    nl as u16,
                    decode_utf8(nb),
                );
                match parse_entries(data, pos + 62 + nl, (count - 1) as nat) {
                    Ok(rest) => Ok(seq![e] + rest),
                    Err(err) => Err(err),
                }
            }
        }
    }
}

/// The checksum stored at `off` is the SHA-1 digest of the bytes before and
/// after it.
pub open spec fn header_checks(data: Seq<u8>, off: int) -> bool {
    sha1_of(data.take(off) + data.skip(off + 20)) == data.subrange(off, off + 20)
}

/// Reads an index file: checks the checksum, then reads as many entries as
/// the header's count says (none when it is negative).
pub open spec fn parse_index(data: Seq<u8>) -> Result<Seq<EntryModel>, CacheError> {
    if data.len() < 32 {
        Err(CacheError::Truncated)
    } else if !header_checks(data, 12) {
        Err(CacheError::HeaderMismatch)
    } else {
        let nr = i32_of_bits(be_value(data.subrange(8, 12)));
        parse_entries(data, 32, if nr < 0 { 0 } else { nr as nat })
    }
}

/// Checks the checksum stored at `sha1_offset`: the SHA-1 digest of the bytes
/// before and after it must equal it.
pub fn verify_header(data: &[u8], sha1_offset: usize) -> (res: Result<(), CacheError>)
    requires
        sha1_offset + 20 <= data.len(),
    ensures
        res is Ok <==> header_checks(data@, sha1_offset as int),
        res matches Err(e) ==> e == CacheError::HeaderMismatch,
{
    let mut hashed: Vec<u8> = Vec::new();
    push_range(&mut hashed, data, 0, sha1_offset);
    push_range(&mut hashed, data, sha1_offset + 20, data.len());
    assert(hashed@ =~= data@.take(sha1_offset as int) + data@.skip(sha1_offset + 20));
    let result = sha1_digest(hashed.as_slice());
    let ghost stored = data@.subrange(sha1_offset as int, sha1_offset + 20);
    let mut i: usize = 0;
    while i < 20
        invariant
            i <= 20,
            sha1_offset + 20 <= data.len(),
            result@ == sha1_of(data@.take(sha1_offset as int) + data@.skip(sha1_offset + 20)),
            result@.len() == 20,
            stored == data@.subrange(sha1_offset as int, sha1_offset + 20),
            forall|j: int| 0 <= j < i ==> result@[j] == stored[j],
        decreases 20 - i,
    {
        if result[i] != data[sha1_offset + i] {
            assert(result@[i as int] != stored[i as int]);
            return Err(CacheError::HeaderMismatch);
        }
        i = i + 1;
    }
    assert(result@ =~= stored);
    Ok(())
}

/// Puts the entries read so far in front of the outcome of reading the rest.
pub open spec fn after_prefix(
    done: Seq<EntryModel>,
    rest: Result<Seq<EntryModel>, CacheError>,
) -> Result<Seq<EntryModel>, CacheError> {
    match rest {
        Ok(r) => Ok(done + r),
        Err(e) => Err(e),
    }
}

/// Reads the entry at `pos`, or tells why it cannot be read.
fn parse_entry(data: &[u8], pos: usize) -> (res: Result<(CacheEntry, usize), CacheError>)
    requires
        pos <= data@.len(),
    ensures
        match parse_entries(data@, pos as int, 1) {
            Ok(one) => res matches Ok((ce, next)) && one == seq![entry_model(ce)] && next == pos
                + 62 + be_value(data@.subrange(pos + 60, pos + 62)) && next <= data@.len(),
            Err(e) => res == Err::<(CacheEntry, usize), CacheError>(e),
        },
{
    if data.len() - pos < 62 {
        return Err(CacheError::Truncated);
    }
    let nl = read_be(data, pos + 60, 2);
    proof {
        lemma_be_value_bound(data@.subrange(pos + 60, pos + 62));
        lemma_pow256_values();
    }
    let namelen = nl as usize;
    if data.len() - pos - 62 < namelen {
        return Err(CacheError::Truncated);
    }
    let mut name_bytes: Vec<u8> = Vec::new();
    push_range(&mut name_bytes, data, pos + 62, pos + 62 + namelen);
    let name = match string_from_utf8(name_bytes) {
        Some(s) => s,
        None => {
            return Err(CacheError::InvalidName);
        },
    };
    let created = read_be(data, pos, 16);
    let modified = read_be(data, pos + 16, 16);
    let size = read_be(data, pos + 32, 8);
    proof {
        lemma_be_value_bound(data@.subrange(pos + 32, pos + 40));
    }
    let mut sha1 = [0u8; 20];
    let mut i: usize = 0;
    while i < 20
        invariant
            i <= 20,
            pos + 62 <= data.len(),
            sha1@.len() == 20,
            forall|j: int| 0 <= j < i ==> sha1@[j] == data@[pos + 40 + j],
        decreases 20 - i,
    {
        sha1[i] = data[pos + 40 + i];
        i = i + 1;
    }
    assert(sha1@ =~= data@.subrange(pos + 40, pos + 60));
    let ce = CacheEntry {
        created: created,
        modified: modified,
        size: size as u64,
        sha1: sha1,
        namelen: namelen as u16,
        name: name,
    };
    let next = pos + 62 + namelen;
    proof {
        reveal_with_fuel(parse_entries, 2);
        assert(seq![entry_model(ce)] + seq![] =~= seq![entry_model(ce)]);
        assert(name_bytes@ == data@.subrange(pos + 62, pos + 62 + namelen));
    }
    Ok((ce, next))
}


/// Reading several entries starts with reading the first one.
proof fn lemma_parse_entries_step(data: Seq<u8>, pos: int, count: nat)
    requires
        count >= 1,
    ensures
        parse_entries(data, pos, 1) is Err ==> parse_entries(data, pos, count) == parse_entries(
            data,
            pos,
            1,
        ),
        parse_entries(data, pos, 1) matches Ok(one) ==> parse_entries(data, pos, count)
            == after_prefix(
            one,
            parse_entries(
                data,
                pos + 62 + be_value(data.subrange(pos + 60, pos + 62)),
                (count - 1) as nat,
            ),
        ),
{
    reveal_with_fuel(parse_entries, 2);
    if parse_entries(data, pos, 1) is Ok {
        let rest = parse_entries(
            data,
            pos + 62 + be_value(data.subrange(pos + 60, pos + 62)),
            (count - 1) as nat,
        );
        let one = parse_entries(data, pos, 1)->Ok_0;
        assert(one =~= seq![one[0]] + seq![]);
        if rest is Ok {
            assert(seq![one[0]] + rest->Ok_0 =~= one + rest->Ok_0);
        }
    }
}

/// Reads an index file: checks its checksum, then reads the entries that its
/// header counts. `Truncated` stands for files that end before a field that
/// the header or an entry announces.
pub fn parse_cache(data: &[u8]) -> (res: Result<Vec<CacheEntry>, CacheError>)
    ensures
        res matches Ok(v) ==> parse_index(data@) == Ok::<Seq<EntryModel>, CacheError>(
            v@.map_values(|ce: CacheEntry| entry_model(ce)),
        ),
        res matches Err(e) ==> parse_index(data@) == Err::<Seq<EntryModel>, CacheError>(e),
{
    if data.len() < 32 {
        return Err(CacheError::Truncated);
    }
    match verify_header(data, SHA1_OFFSET) {
        Ok(()) => {},
        Err(e) => {
            return Err(e);
        },
    }
    let bits = read_be(data, 8, 4);
    proof {
        lemma_be_value_bound(data@.subrange(8, 12));
        lemma_pow256_values();
    }
    let nr_entries: i32 = if bits >= 0x8000_0000 {
        (bits as i64 - 0x1_0000_0000i64) as i32
    } else {
        bits as i32
    };
    let ghost total: nat = if nr_entries < 0 {
        0
    } else {
        nr_entries as nat
    };
    let mut active_cache: Vec<CacheEntry> = Vec::new();
    let mut curr_entry: usize = SHA1_OFFSET + 20;
    let mut i: i32 = 0;
    assert(active_cache@.map_values(|ce: CacheEntry| entry_model(ce)) =~= seq![]);
    assert(parse_entries(data@, 32, total) =~= after_prefix(seq![], parse_entries(data@, 32, total)))
        by {
        if parse_entries(data@, 32, total) is Ok {
            assert(seq![] + parse_entries(data@, 32, total)->Ok_0 =~= parse_entries(
                data@,
                32,
                total,
            )->Ok_0);
        }
    }
    while i < nr_entries
        invariant
            0 <= i,
            nr_entries >= 0 ==> i <= nr_entries,
            total == (if nr_entries < 0 {
                0
            } else {
                nr_entries as nat
            }),
            curr_entry <= data@.len(),
            parse_index(data@) == parse_entries(data@, 32, total),
            parse_entries(data@, 32, total) == after_prefix(
                active_cache@.map_values(|ce: CacheEntry| entry_model(ce)),
                parse_entries(data@, curr_entry as int, (total - i) as nat),
            ),
        decreases nr_entries - i,
    {
        proof {
            lemma_parse_entries_step(data@, curr_entry as int, (total - i) as nat);
        }
        match parse_entry(data, curr_entry) {
            Ok((ce, next)) => {
                let ghost done = active_cache@.map_values(|c: CacheEntry| entry_model(c));
                active_cache.push(ce);
                proof {
                    let rest = parse_entries(data@, next as int, (total - i - 1) as nat);
                    assert(active_cache@.map_values(|c: CacheEntry| entry_model(c)) =~= done
                        + seq![entry_model(ce)]);
                    if rest is Ok {
                        assert(done + (seq![entry_model(ce)] + rest->Ok_0) =~= (done
                            + seq![entry_model(ce)]) + rest->Ok_0);
                    }
                }
                curr_entry = next;
            },
            Err(e) => {
                return Err(e);
            },
        }
        i = i + 1;
    }
    proof {
        reveal_with_fuel(parse_entries, 1);
        assert(active_cache@.map_values(|ce: CacheEntry| entry_model(ce)) + seq![]
            =~= active_cache@.map_values(|ce: CacheEntry| entry_model(ce)));
    }
    Ok(active_cache)
}


/// An entry records its name's length in bytes, and the name is short enough
/// for the two bytes that hold that length.
pub open spec fn namelen_matches(ce: CacheEntry) -> bool {
    ce.namelen as int == entry_key(ce).len()
}

proof fn lemma_entry_bytes_len(ce: CacheEntry)
    ensures
        entry_bytes(ce).len() == 62 + entry_key(ce).len(),
{
    lemma_be_bytes_len(ce.created as nat, 16);
    lemma_be_bytes_len(ce.modified as nat, 16);
    lemma_be_bytes_len(ce.size as nat, 8);
    lemma_be_bytes_len(ce.namelen as nat, 2);
}

/// Entries written after any prefix are read back as they were written.
proof fn lemma_entries_roundtrip(prefix: Seq<u8>, s: Seq<CacheEntry>)
    requires
        forall|i: int| 0 <= i < s.len() ==> namelen_matches(#[trigger] s[i]),
    ensures
        parse_entries(prefix + entries_bytes(s), prefix.len() as int, s.len()) == Ok::<
            Seq<EntryModel>,
            CacheError,
        >(s.map_values(|ce: CacheEntry| entry_model(ce))),
    decreases s.len(),
{
    let data = prefix + entries_bytes(s);
    if s.len() == 0 {
        assert(s.map_values(|ce: CacheEntry| entry_model(ce)) =~= seq![]);
    } else {
        let ce = s[0];
        let rest = s.drop_first();
        let eb = entry_bytes(ce);
        let pos = prefix.len() as int;
        assert(namelen_matches(s[0]));
        lemma_entry_bytes_len(ce);
        lemma_pow256_values();
        lemma_be_bytes_len(ce.created as nat, 16);
        lemma_be_bytes_len(ce.modified as nat, 16);
        lemma_be_bytes_len(ce.size as nat, 8);
        lemma_be_bytes_len(ce.namelen as nat, 2);
        assert(data =~= (prefix + eb) + entries_bytes(rest));
        assert(data.subrange(pos, pos + 16) =~= be_bytes(ce.created as nat, 16));
        assert(data.subrange(pos + 16, pos + 32) =~= be_bytes(ce.modified as nat, 16));
        assert(data.subrange(pos + 32, pos + 40) =~= be_bytes(ce.size as nat, 8));
        assert(data.subrange(pos + 40, pos + 60) =~= ce.sha1@);
        assert(data.subrange(pos + 60, pos + 62) =~= be_bytes(ce.namelen as nat, 2));
        let nl = entry_key(ce).len() as int;
        assert(data.subrange(pos + 62, pos + 62 + nl) =~= entry_key(ce));
        lemma_be_roundtrip(ce.created as nat, 16);
        lemma_be_roundtrip(ce.modified as nat, 16);
        lemma_be_roundtrip(ce.size as nat, 8);
        lemma_be_roundtrip(ce.namelen as nat, 2);
        encode_utf8_valid_utf8(ce.name@);
        encode_utf8_decode_utf8(ce.name@);
        assert forall|i: int| 0 <= i < rest.len() implies namelen_matches(#[trigger] rest[i]) by {
            assert(rest[i] == s[i + 1]);
        }
        lemma_entries_roundtrip(prefix + eb, rest);
        assert((prefix + eb).len() == pos + 62 + nl);
        let m = s.map_values(|c: CacheEntry| entry_model(c));
        let mr = rest.map_values(|c: CacheEntry| entry_model(c));
        assert(m =~= seq![entry_model(ce)] + mr);
    }
}

/// Reading back what was written: the index file that `serialize_cache`
/// produces for entries whose recorded name lengths are right, with their
/// number as the count, is read by `parse_cache` as exactly those entries.
/// (The digest in the file is the 20 bytes that `serialize_cache` computed.)
pub proof fn lemma_index_file_roundtrip(s: Seq<CacheEntry>, nr_entries: i32)
    requires
        nr_entries >= 0,
        s.len() == nr_entries,
        forall|i: int| 0 <= i < s.len() ==> namelen_matches(#[trigger] s[i]),
        sha1_of(header_fields(nr_entries) + entries_bytes(s)).len() == 20,
    ensures
        parse_index(index_file_bytes(s, nr_entries)) == Ok::<Seq<EntryModel>, CacheError>(
            s.map_values(|ce: CacheEntry| entry_model(ce)),
        ),
{
    let h = header_fields(nr_entries);
    let e = entries_bytes(s);
    let d = sha1_of(h + e);
    let data = index_file_bytes(s, nr_entries);
    lemma_be_bytes_len(CACHE_SIGNATURE as nat, 4);
    lemma_be_bytes_len(i32_bits(CACHE_VERSION), 4);
    lemma_be_bytes_len(i32_bits(nr_entries), 4);
    lemma_pow256_values();
    assert(h.len() == 12);
    assert(data.take(12) =~= h);
    assert(data.skip(32) =~= e);
    assert(data.subrange(12, 32) =~= d);
    assert(header_checks(data, 12));
    assert(data.subrange(8, 12) =~= be_bytes(i32_bits(nr_entries), 4));
    lemma_be_roundtrip(i32_bits(nr_entries), 4);
    assert(data =~= (h + d) + e);
    lemma_entries_roundtrip(h + d, s);
}


/// The header of the index file, read back: bytes 0..4 are `DIRC`, bytes
/// 4..8 the version 1 and bytes 8..12 the entry count (big-endian, two's
/// complement), and bytes 12..32 are the SHA-1 digest of everything else in
/// the file; the entries follow from byte 32.
pub proof fn lemma_index_header_reads_back(s: Seq<CacheEntry>, nr_entries: i32)
    requires
        sha1_of(header_fields(nr_entries) + entries_bytes(s)).len() == 20,
    ensures
        ({
            let f = index_file_bytes(s, nr_entries);
            &&& f.len() == 32 + entries_bytes(s).len()
            &&& f.take(4) == seq![68u8, 73u8, 82u8, 67u8]
            &&& i32_of_bits(be_value(f.subrange(4, 8))) == 1
            &&& i32_of_bits(be_value(f.subrange(8, 12))) == nr_entries
            &&& f.subrange(12, 32) == sha1_of(f.take(12) + f.skip(32))
            &&& f.skip(32) == entries_bytes(s)
        }),
{
    let h = header_fields(nr_entries);
    let f = index_file_bytes(s, nr_entries);
    lemma_be_bytes_len(CACHE_SIGNATURE as nat, 4);
    lemma_be_bytes_len(i32_bits(CACHE_VERSION), 4);
    lemma_be_bytes_len(i32_bits(nr_entries), 4);
    lemma_pow256_values();
    lemma_be_roundtrip(CACHE_SIGNATURE as nat, 4);
    lemma_be_roundtrip(i32_bits(CACHE_VERSION), 4);
    lemma_be_roundtrip(i32_bits(nr_entries), 4);
    assert(f.take(12) =~= h);
    assert(f.skip(32) =~= entries_bytes(s));
    assert(f.subrange(4, 8) =~= be_bytes(i32_bits(CACHE_VERSION), 4));
    assert(f.subrange(8, 12) =~= be_bytes(i32_bits(nr_entries), 4));
    let sig = f.take(4);
    assert(sig =~= be_bytes(CACHE_SIGNATURE as nat, 4));
    reveal_with_fuel(be_bytes, 5);
    assert(sig =~= seq![68u8, 73u8, 82u8, 67u8]);
}

/// One entry of the index file, read back: big-endian fields at fixed
/// offsets, creation time at 0..16, modification time at 16..32, size at
/// 32..40, digest at 40..60, name length at 60..62, then the name's bytes.
pub proof fn lemma_entry_bytes_read_back(ce: CacheEntry)
    ensures
        ({
            let e = entry_bytes(ce);
            &&& e.len() == 62 + entry_key(ce).len()
            &&& be_value(e.subrange(0, 16)) == ce.created
            &&& be_value(e.subrange(16, 32)) == ce.modified
            &&& be_value(e.subrange(32, 40)) == ce.size
            &&& e.subrange(40, 60) == ce.sha1@
            &&& be_value(e.subrange(60, 62)) == ce.namelen
            &&& e.skip(62) == entry_key(ce)
        }),
{
    let e = entry_bytes(ce);
    lemma_entry_bytes_len(ce);
    lemma_pow256_values();
    lemma_be_roundtrip(ce.created as nat, 16);
    lemma_be_roundtrip(ce.modified as nat, 16);
    lemma_be_roundtrip(ce.size as nat, 8);
    lemma_be_roundtrip(ce.namelen as nat, 2);
    lemma_be_bytes_len(ce.created as nat, 16);
    lemma_be_bytes_len(ce.modified as nat, 16);
    lemma_be_bytes_len(ce.size as nat, 8);
    lemma_be_bytes_len(ce.namelen as nat, 2);
    assert(e.subrange(0, 16) =~= be_bytes(ce.created as nat, 16));
    assert(e.subrange(16, 32) =~= be_bytes(ce.modified as nat, 16));
    assert(e.subrange(32, 40) =~= be_bytes(ce.size as nat, 8));
    assert(e.subrange(40, 60) =~= ce.sha1@);
    assert(e.subrange(60, 62) =~= be_bytes(ce.namelen as nat, 2));
    assert(e.skip(62) =~= entry_key(ce));
}

} // verus!
