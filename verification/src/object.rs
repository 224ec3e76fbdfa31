//! Objects of the store: a header (`kind size`), a zero byte, and the body,
//! kept zlib-compressed in a file named by the SHA-1 digest of the compressed
//! bytes.
use vstd::prelude::*;
use vstd::string::*;
use vstd::utf8::*;

use crate::encoding::{
    decimal, decimal_bytes, decimal_value, is_canonical_decimal, lemma_decimal_reads_back, lemma_decimal_digits, lemma_decimal_len_u64, prepend_integer,
    push_range,
};
use crate::external::{
    sha1_digest, sha1_of, string_from_utf8, zlib_compress, zlib_compressed, zlib_decompress,
    zlib_decompressed,
};
use crate::model::{entry_key, CacheEntry};

verus! {

/// Why an object cannot be written or read.
#[derive(Debug, PartialEq, Eq, Structural, Clone, Copy)]
pub enum ObjectError {
    /// The stored bytes are not a zlib stream.
    Decompress,
    /// The body is not valid UTF-8 where text was expected.
    NotText,
    /// The header names another kind of object than the one asked for.
    WrongKind,
}

/// Compression level of stored objects: the best that zlib offers.
pub const OBJECT_COMPRESSION: u32 = 9;

/// `blob`
pub open spec fn blob_kind() -> Seq<u8> {
    seq![98u8, 108u8, 111u8, 98u8]
}

/// `tree`
pub open spec fn tree_kind() -> Seq<u8> {
    seq![116u8, 114u8, 101u8, 101u8]
}

/// `commit`
pub open spec fn commit_kind() -> Seq<u8> {
    seq![99u8, 111u8, 109u8, 109u8, 105u8, 116u8]
}

/// An object of the given kind: `kind`, a space, the size in decimal, a zero
/// byte, then the body.
pub open spec fn framed(kind: Seq<u8>, size: nat, body: Seq<u8>) -> Seq<u8> {
    kind + seq![32u8] + decimal(size) + seq![0u8] + body
}

/// A blob object for a file of `file_len` bytes with the given contents; an
/// empty file gives an empty object, with no header.
pub open spec fn blob_object(file_len: nat, data: Seq<u8>) -> Seq<u8> {
    if file_len == 0 {
        seq![]
    } else {
        framed(blob_kind(), file_len, data)
    }
}

/// Position of the first zero byte, or the length when there is none.
pub open spec fn zero_index(d: Seq<u8>) -> nat
    decreases d.len(),
{
    if d.len() == 0 {
        0
    } else if d[0] == 0 {
        0
    } else {
        1 + zero_index(d.drop_first())
    }
}

/// The header of an object: the bytes before its first zero byte.
pub open spec fn object_header(d: Seq<u8>) -> Seq<u8> {
    d.take(zero_index(d) as int)
}

/// The body of an object: the bytes after its first zero byte, nothing when
/// there is none.
pub open spec fn object_body(d: Seq<u8>) -> Seq<u8> {
    if zero_index(d) < d.len() {
        d.skip(zero_index(d) as int + 1)
    } else {
        seq![]
    }
}

/// Position of the first space, or the length when there is none.
pub open spec fn space_index(d: Seq<u8>) -> nat
    decreases d.len(),
{
    if d.len() == 0 {
        0
    } else if d[0] == 32 {
        0
    } else {
        1 + space_index(d.drop_first())
    }
}

/// The size that an object's header records: the header's bytes after its
/// first space.
pub open spec fn size_field(d: Seq<u8>) -> Seq<u8> {
    object_header(d).skip(space_index(object_header(d)) as int + 1)
}

/// The kind that a header names: its bytes before the first space.
pub open spec fn header_kind(header: Seq<u8>) -> Seq<u8> {
    header.take(space_index(header) as int)
}

pub proof fn lemma_zero_index(d: Seq<u8>)
    ensures
        zero_index(d) <= d.len(),
        forall|i: int| 0 <= i < zero_index(d) ==> #[trigger] d[i] != 0,
        zero_index(d) < d.len() ==> d[zero_index(d) as int] == 0,
    decreases d.len(),
{
    if d.len() > 0 && d[0] != 0 {
        lemma_zero_index(d.drop_first());
        assert forall|i: int| 0 <= i < zero_index(d) implies #[trigger] d[i] != 0 by {
            if i > 0 {
                assert(d[i] == d.drop_first()[i - 1]);
            }
        }
    }
}

proof fn lemma_space_index(d: Seq<u8>)
    ensures
        space_index(d) <= d.len(),
    decreases d.len(),
{
    if d.len() > 0 && d[0] != 32 {
        lemma_space_index(d.drop_first());
    }
}

/// The first zero byte is the first byte that is zero.
proof fn lemma_zero_index_at(d: Seq<u8>, k: int)
    requires
        0 <= k <= d.len(),
        forall|i: int| 0 <= i < k ==> #[trigger] d[i] != 0,
        k < d.len() ==> d[k] == 0,
    ensures
        zero_index(d) == k,
    decreases d.len(),
{
    if d.len() > 0 && k > 0 {
        assert(d[0] != 0);
        assert forall|i: int| 0 <= i < k - 1 implies #[trigger] d.drop_first()[i] != 0 by {
            assert(d.drop_first()[i] == d[i + 1]);
        }
        lemma_zero_index_at(d.drop_first(), k - 1);
    }
}

proof fn lemma_space_index_at(d: Seq<u8>, k: int)
    requires
        0 <= k <= d.len(),
        forall|i: int| 0 <= i < k ==> #[trigger] d[i] != 32,
        k < d.len() ==> d[k] == 32,
    ensures
        space_index(d) == k,
    decreases d.len(),
{
    if d.len() > 0 && k > 0 {
        assert(d[0] != 32);
        assert forall|i: int| 0 <= i < k - 1 implies #[trigger] d.drop_first()[i] != 32 by {
            assert(d.drop_first()[i] == d[i + 1]);
        }
        lemma_space_index_at(d.drop_first(), k - 1);
    }
}

/// Finds the first zero byte.
fn find_zero(d: &[u8]) -> (res: usize)
    ensures
        res == zero_index(d@),
{
    let mut i: usize = 0;
    while i < d.len()
        invariant
            i <= d@.len(),
            forall|j: int| 0 <= j < i ==> #[trigger] d@[j] != 0,
        decreases d@.len() - i,
    {
        if d[i] == 0 {
            proof {
                lemma_zero_index_at(d@, i as int);
            }
            return i;
        }
        i = i + 1;
    }
    proof {
        lemma_zero_index_at(d@, i as int);
    }
    i
}

/// Finds the first space.
fn find_space(d: &[u8]) -> (res: usize)
    ensures
        res == space_index(d@),
{
    let mut i: usize = 0;
    while i < d.len()
        invariant
            i <= d@.len(),
            forall|j: int| 0 <= j < i ==> #[trigger] d@[j] != 32,
        decreases d@.len() - i,
    {
        if d[i] == 32 {
            proof {
                lemma_space_index_at(d@, i as int);
            }
            return i;
        }
        i = i + 1;
    }
    proof {
        lemma_space_index_at(d@, i as int);
    }
    i
}

/// The compressed bytes of an object and the digest that names it: the zlib
/// stream at the best compression level, and the SHA-1 digest of that stream.
pub fn compress_object(content: &[u8]) -> (res: (Vec<u8>, [u8; 20]))
    ensures
        res.0@ == zlib_compressed(content@, OBJECT_COMPRESSION),
        res.1@ == sha1_of(res.0@),
{
    let compressed = match zlib_compress(content, OBJECT_COMPRESSION) {
        Ok(c) => c,
        Err(_) => {
            // the encoder never fails on a vector
            assert(false);
            Vec::new()
        },
    };
    let sha1 = sha1_digest(compressed.as_slice());
    (compressed, sha1)
}

/// The body of a stored object: decompresses it and drops the header and the
/// zero byte that ends it. A stream that `compress_object` made from some
/// content is read as that content's body.
pub fn decode_sha1_file(raw: &[u8]) -> (res: Result<Vec<u8>, ObjectError>)
    ensures
        res is Ok <==> zlib_decompressed(raw@) is Some,
        res matches Ok(b) ==> b@ == object_body(zlib_decompressed(raw@).unwrap()),
        res matches Err(e) ==> e == ObjectError::Decompress,
        forall|c: Seq<u8>, level: u32|
            level <= 9 && raw@ == #[trigger] zlib_compressed(c, level) ==> (res matches Ok(b)
                && b@ == object_body(c)),
{
    match zlib_decompress(raw) {
        Ok(data) => {
            let z = find_zero(data.as_slice());
            proof {
                lemma_zero_index(data@);
            }
            let mut body: Vec<u8> = Vec::new();
            if z < data.len() {
                push_range(&mut body, data.as_slice(), z + 1, data.len());
                assert(body@ =~= data@.skip(z + 1));
            }
            Ok(body)
        },
        Err(_) => Err(ObjectError::Decompress),
    }
}


/// The body of a stored object as text: `NotText` when it is not valid UTF-8.
pub fn decode_sha1_file_text(raw: &[u8]) -> (res: Result<String, ObjectError>)
    ensures
        zlib_decompressed(raw@) is None ==> res == Err::<String, ObjectError>(
            ObjectError::Decompress,
        ),
        zlib_decompressed(raw@) matches Some(d) ==> (if valid_utf8(object_body(d)) {
            res matches Ok(t) && t@ == decode_utf8(object_body(d))
        } else {
            res == Err::<String, ObjectError>(ObjectError::NotText)
        }),
        forall|c: Seq<u8>, level: u32|
            level <= 9 && raw@ == #[trigger] zlib_compressed(c, level) ==> (if valid_utf8(
                object_body(c),
            ) {
                res matches Ok(t) && t@ == decode_utf8(object_body(c))
            } else {
                res == Err::<String, ObjectError>(ObjectError::NotText)
            }),
{
    let body = decode_sha1_file(raw)?;
    match string_from_utf8(body) {
        Some(text) => Ok(text),
        None => Err(ObjectError::NotText),
    }
}

/// The body of a stored object of the given kind: `WrongKind` when the header
/// names another kind.
pub fn decode_sha1_file_of_kind(raw: &[u8], kind: &str) -> (res: Result<Vec<u8>, ObjectError>)
    ensures
        zlib_decompressed(raw@) is None ==> res == Err::<Vec<u8>, ObjectError>(
            ObjectError::Decompress,
        ),
        zlib_decompressed(raw@) matches Some(d) ==> (if header_kind(object_header(d))
            == kind.spec_bytes() {
            res matches Ok(b) && b@ == object_body(d)
        } else {
            res == Err::<Vec<u8>, ObjectError>(ObjectError::WrongKind)
        }),
        forall|c: Seq<u8>, level: u32|
            level <= 9 && raw@ == #[trigger] zlib_compressed(c, level) ==> (if header_kind(
                object_header(c),
            ) == kind.spec_bytes() {
                res matches Ok(b) && b@ == object_body(c)
            } else {
                res == Err::<Vec<u8>, ObjectError>(ObjectError::WrongKind)
            }),
{
    match zlib_decompress(raw) {
        Ok(data) => {
            let z = find_zero(data.as_slice());
            proof {
                lemma_zero_index(data@);
            }
            let mut header: Vec<u8> = Vec::new();
            push_range(&mut header, data.as_slice(), 0, z);
            assert(header@ =~= object_header(data@));
            let sp = find_space(header.as_slice());
            let expected = kind.as_bytes();
            proof {
                lemma_space_index(header@);
            }
            if sp != expected.len() {
                assert(header_kind(header@).len() != expected@.len());
                return Err(ObjectError::WrongKind);
            }
            let mut i: usize = 0;
            while i < sp
                invariant
                    sp == space_index(header@),
                    sp == expected@.len(),
                    sp <= header@.len(),
                    header@ == object_header(data@),
                    Some(data@) == zlib_decompressed(raw@),
                    forall|c: Seq<u8>, level: u32|
                        level <= 9 && raw@ == #[trigger] zlib_compressed(c, level) ==> data@ == c,
                    expected@ == kind.spec_bytes(),
                    i <= sp,
                    forall|j: int| 0 <= j < i ==> header@[j] == expected@[j],
                decreases sp - i,
            {
                if header[i] != expected[i] {
                    assert(header_kind(header@)[i as int] != expected@[i as int]);
                    return Err(ObjectError::WrongKind);
                }
                i = i + 1;
            }
            assert(header_kind(header@) =~= expected@);
            let mut body: Vec<u8> = Vec::new();
            if z < data.len() {
                push_range(&mut body, data.as_slice(), z + 1, data.len());
                assert(body@ =~= data@.skip(z + 1));
            }
            Ok(body)
        },
        Err(_) => Err(ObjectError::Decompress),
    }
}

/// The content of the blob object for a file of `file_len` bytes with the
/// given contents: `blob`, a space, the length in decimal, a zero byte and the
/// contents; nothing at all for an empty file.
pub fn blob_content(file_len: usize, data: &[u8]) -> (res: Vec<u8>)
    ensures
        res@ == blob_object(file_len as nat, data@),
        file_len == 0 ==> res@.len() == 0,
        file_len > 0 ==> header_kind(object_header(res@)) == blob_kind(),
        file_len > 0 ==> is_canonical_decimal(size_field(res@)),
        file_len > 0 ==> decimal_value(size_field(res@)) == file_len,
        file_len > 0 ==> object_body(res@) == data@,
{
    proof {
        lemma_blob_object_reads_back(file_len as nat, data@);
    }
    let mut content: Vec<u8> = Vec::new();
    if file_len == 0 {
        return content;
    }
    content.push(98u8);
    content.push(108u8);
    content.push(111u8);
    content.push(98u8);
    content.push(32u8);
    let digits = decimal_bytes(file_len as u64);
    content.extend_from_slice(digits.as_slice());
    content.push(0u8);
    push_range(&mut content, data, 0, data.len());
    assert(data@.subrange(0, data@.len() as int) =~= data@);
    assert(content@ =~= blob_object(file_len as nat, data@));
    content
}


/// One entry of a tree: the file's size in decimal, a space, its name, a zero
/// byte and the digest of its blob.
pub open spec fn tree_entry_bytes(ce: CacheEntry) -> Seq<u8> {
    decimal(ce.size as nat) + seq![32u8] + entry_key(ce) + seq![0u8] + ce.sha1@
}

/// The entries of a tree, one after the other.
pub open spec fn tree_body(s: Seq<CacheEntry>) -> Seq<u8>
    decreases s.len(),
{
    if s.len() == 0 {
        seq![]
    } else {
        tree_entry_bytes(s[0]) + tree_body(s.drop_first())
    }
}

/// The tree object of an index. Its header counts the body and the zero byte
/// that precedes it.
pub open spec fn tree_object(s: Seq<CacheEntry>) -> Seq<u8> {
    framed(tree_kind(), tree_body(s).len() + 1, tree_body(s))
}

proof fn lemma_tree_body_push(s: Seq<CacheEntry>, ce: CacheEntry)
    ensures
        tree_body(s.push(ce)) == tree_body(s) + tree_entry_bytes(ce),
    decreases s.len(),
{
    if s.len() == 0 {
        assert(s.push(ce).drop_first() =~= s);
        assert(tree_body(s.push(ce)) =~= tree_body(s) + tree_entry_bytes(ce));
    } else {
        lemma_tree_body_push(s.drop_first(), ce);
        assert(s.push(ce).drop_first() =~= s.drop_first().push(ce));
        assert(tree_body(s.push(ce)) =~= tree_body(s) + tree_entry_bytes(ce));
    }
}

/// Finishes an object whose body follows 41 placeholder bytes: writes the
/// size (body plus the placeholder before it) in decimal just before the last
/// placeholder, which must be the zero byte that ends the header, and puts
/// `kind` and a space in front of the digits.
pub fn frame_placeholder_buffer(buffer: &mut Vec<u8>, kind: &[u8]) -> (res: Vec<u8>)
    requires
        old(buffer)@.len() >= 41,
        old(buffer)@[40] == 0,
    ensures
        res@ == framed(kind@, (old(buffer)@.len() - 40) as nat, old(buffer)@.skip(41)),
{
    let ghost start = buffer@;
    let offset: usize = 40;
    let size = buffer.len() - offset;
    proof {
        assert(size as nat <= u64::MAX);
        lemma_decimal_len_u64(size as nat);
    }
    let first = prepend_integer(buffer, size, offset);
    let mut out: Vec<u8> = Vec::new();
    push_range(&mut out, kind, 0, kind.len());
    out.push(32u8);
    push_range(&mut out, buffer.as_slice(), first, buffer.len());
    proof {
        assert(kind@.subrange(0, kind@.len() as int) =~= kind@);
        assert(start.skip(40) =~= seq![0u8] + start.skip(41));
        assert(buffer@.subrange(first as int, buffer@.len() as int) =~= decimal(size as nat)
            + seq![0u8] + start.skip(41));
        assert(out@ =~= framed(kind@, size as nat, start.skip(41)));
    }
    out
}

/// The content of the tree object for the entries of the index, in their
/// order.
pub fn build_tree_object(entries: &[CacheEntry]) -> (res: Vec<u8>)
    ensures
        res@ == tree_object(entries@),
        header_kind(object_header(res@)) == tree_kind(),
        object_body(res@) == tree_body(entries@),
        is_canonical_decimal(size_field(res@)),
        decimal_value(size_field(res@)) == object_body(res@).len() + 1,
{
    proof {
        lemma_tree_object_reads_back(entries@);
    }
    let mut buffer: Vec<u8> = vec![0u8; 41];
    let ghost zeros = buffer@;
    let mut i: usize = 0;
    assert(entries@.take(0) =~= seq![]);
    assert(buffer@ =~= zeros + tree_body(entries@.take(0)));
    while i < entries.len()
        invariant
            i <= entries@.len(),
            zeros.len() == 41,
            forall|j: int| 0 <= j < 41 ==> zeros[j] == 0,
            buffer@ == zeros + tree_body(entries@.take(i as int)),
        decreases entries@.len() - i,
    {
        let entry = &entries[i];
        let ghost before = buffer@;
        let digits = decimal_bytes(entry.size);
        buffer.extend_from_slice(digits.as_slice());
        buffer.push(32u8);
        buffer.extend_from_slice(entry.name.as_str().as_bytes());
        buffer.push(0u8);
        buffer.extend_from_slice(entry.sha1.as_slice());
        proof {
            assert(buffer@ =~= before + tree_entry_bytes(*entry));
            lemma_tree_body_push(entries@.take(i as int), *entry);
            assert(entries@.take(i + 1) =~= entries@.take(i as int).push(*entry));
        }
        i = i + 1;
    }
    assert(entries@.take(i as int) =~= entries@);
    assert(buffer@.skip(41) =~= tree_body(entries@));
    let mut kind: Vec<u8> = Vec::new();
    kind.push(116u8);
    kind.push(114u8);
    kind.push(101u8);
    kind.push(101u8);
    assert(kind@ =~= tree_kind());
    frame_placeholder_buffer(&mut buffer, kind.as_slice())
}

/// Length of the first line of a tree listing: up to and including the first
/// zero byte, or everything when there is none.
pub open spec fn first_line_len(b: Seq<u8>) -> nat {
    if zero_index(b) < b.len() {
        zero_index(b) + 1
    } else {
        b.len()
    }
}

/// What a tree's body lists: for each entry its line (up to and including the
/// zero byte) and the 20 bytes that follow; and whether the body ends before
/// those 20 bytes of a line that was started.
pub open spec fn tree_listing(b: Seq<u8>) -> (Seq<(Seq<u8>, Seq<u8>)>, bool)
    decreases b.len(),
{
    if b.len() == 0 {
        (seq![], false)
    } else {
        let n = first_line_len(b) as int;
        let rest = b.skip(n);
        if rest.len() < 20 {
            (seq![], true)
        } else {
            proof {
                lemma_zero_index(b);
            }
            let more = tree_listing(rest.skip(20));
            (seq![(b.take(n), rest.take(20))] + more.0, more.1)
        }
    }
}

/// The lines and digests of a tree's body, in order, as `read_tree` lists
/// them; the flag tells that the body ends in the middle of a digest, after
/// the entries listed.
pub fn list_tree_entries(body: &[u8]) -> (res: (Vec<(Vec<u8>, [u8; 20])>, bool))
    ensures
        res.0@.map_values(|p: (Vec<u8>, [u8; 20])| (p.0@, p.1@)) == tree_listing(body@).0,
        res.1 == tree_listing(body@).1,
{
    let mut out: Vec<(Vec<u8>, [u8; 20])> = Vec::new();
    let mut pos: usize = 0;
    let len = body.len();
    assert(body@.skip(0) =~= body@);
    loop
        invariant_except_break
            pos <= len,
            len == body@.len(),
            tree_listing(body@).0 == out@.map_values(|p: (Vec<u8>, [u8; 20])| (p.0@, p.1@))
                + tree_listing(body@.skip(pos as int)).0,
            tree_listing(body@).1 == tree_listing(body@.skip(pos as int)).1,
        ensures
            out@.map_values(|p: (Vec<u8>, [u8; 20])| (p.0@, p.1@)) == tree_listing(body@).0,
        decreases len - pos,
    {
        let ghost rest = body@.skip(pos as int);
        if pos == len {
            assert(out@.map_values(|p: (Vec<u8>, [u8; 20])| (p.0@, p.1@)) + seq![]
                =~= out@.map_values(|p: (Vec<u8>, [u8; 20])| (p.0@, p.1@)));
            return (out, false);
        }
        let mut line: Vec<u8> = Vec::new();
        let mut j = pos;
        while j < len && body[j] != 0
            invariant
                pos <= j <= len,
                len == body@.len(),
                forall|k: int| pos <= k < j ==> body@[k] != 0,
                line@ == body@.subrange(pos as int, j as int),
            decreases len - j,
        {
            line.push(body[j]);
            assert(body@.subrange(pos as int, j + 1) =~= body@.subrange(pos as int, j as int).push(
                body@[j as int],
            ));
            j = j + 1;
        }
        proof {
            assert forall|k: int| 0 <= k < j - pos implies #[trigger] rest[k] != 0 by {
                assert(rest[k] == body@[pos + k]);
            }
            if j < len {
                assert(rest[j - pos] == 0);
            }
            lemma_zero_index_at(rest, j - pos);
        }
        if j < len {
            line.push(0u8);
            j = j + 1;
            assert(line@ =~= body@.subrange(pos as int, j as int));
        }
        assert(line@ =~= rest.take(first_line_len(rest) as int));
        assert(rest.skip(first_line_len(rest) as int) =~= body@.skip(j as int));
        if len - j < 20 {
            assert(out@.map_values(|p: (Vec<u8>, [u8; 20])| (p.0@, p.1@)) + seq![]
                =~= out@.map_values(|p: (Vec<u8>, [u8; 20])| (p.0@, p.1@)));
            return (out, true);
        }
        let mut sha1 = [0u8; 20];
        let mut k: usize = 0;
        while k < 20
            invariant
                k <= 20,
                j + 20 <= len,
                len == body@.len(),
                sha1@.len() == 20,
                forall|t: int| 0 <= t < k ==> sha1@[t] == body@[j + t],
            decreases 20 - k,
        {
            sha1[k] = body[j + k];
            k = k + 1;
        }
        let ghost pair = (line@, sha1@);
        let ghost done = out@.map_values(|p: (Vec<u8>, [u8; 20])| (p.0@, p.1@));
        proof {
            assert(sha1@ =~= body@.skip(j as int).take(20));
            assert(body@.skip(j as int).skip(20) =~= body@.skip(j + 20));
        }
        out.push((line, sha1));
        proof {
            assert(out@.map_values(|p: (Vec<u8>, [u8; 20])| (p.0@, p.1@)) =~= done.push(pair));
            assert(done + tree_listing(rest).0 =~= done.push(pair) + tree_listing(
                body@.skip(j + 20),
            ).0);
        }
        pos = j + 20;
    }
}


/// An object framed with a kind made of letters splits back into that kind,
/// its header and its body.
pub proof fn lemma_framed_parts(kind: Seq<u8>, size: nat, body: Seq<u8>)
    requires
        forall|i: int| 0 <= i < kind.len() ==> 97 <= #[trigger] kind[i] <= 122,
    ensures
        object_header(framed(kind, size, body)) == kind + seq![32u8] + decimal(size),
        object_body(framed(kind, size, body)) == body,
        header_kind(object_header(framed(kind, size, body))) == kind,
        size_field(framed(kind, size, body)) == decimal(size),
        is_canonical_decimal(size_field(framed(kind, size, body))),
        decimal_value(size_field(framed(kind, size, body))) == size,
{
    let d = framed(kind, size, body);
    let h = kind + seq![32u8] + decimal(size);
    lemma_decimal_digits(size);
    assert forall|i: int| 0 <= i < h.len() implies #[trigger] d[i] != 0 by {
        if i < kind.len() {
            assert(d[i] == kind[i]);
        } else if i > kind.len() {
            assert(d[i] == decimal(size)[i - kind.len() - 1]);
        }
    }
    assert(d[h.len() as int] == 0);
    lemma_zero_index_at(d, h.len() as int);
    assert(object_header(d) =~= h);
    assert(object_body(d) =~= body);
    assert forall|i: int| 0 <= i < kind.len() implies #[trigger] h[i] != 32 by {
        assert(h[i] == kind[i]);
    }
    lemma_space_index_at(h, kind.len() as int);
    assert(header_kind(h) =~= kind);
    assert(h.skip(kind.len() as int + 1) =~= decimal(size));
    lemma_decimal_reads_back(size);
}

/// Reading back a stored blob: the blob object of a file is read as a `blob`
/// whose body is the file's contents (an empty file gives an empty object,
/// whose body is empty too).
pub proof fn lemma_blob_reads_back(data: Seq<u8>)
    ensures
        object_body(blob_object(data.len(), data)) == data,
        data.len() > 0 ==> header_kind(object_header(blob_object(data.len(), data)))
            == blob_kind(),
{
    if data.len() > 0 {
        lemma_framed_parts(blob_kind(), data.len(), data);
    } else {
        assert(object_body(seq![]) =~= data);
    }
}

/// Reading back a stored tree: the tree object of an index is read as a
/// `tree` whose body is the listing of the index's entries.
pub proof fn lemma_tree_reads_back(s: Seq<CacheEntry>)
    ensures
        header_kind(object_header(tree_object(s))) == tree_kind(),
        object_body(tree_object(s)) == tree_body(s),
{
    lemma_framed_parts(tree_kind(), tree_body(s).len() + 1, tree_body(s));
}

/// The line that `read_tree` shows for an entry: size, space, name and the
/// zero byte that ends the name.
pub open spec fn tree_line(ce: CacheEntry) -> Seq<u8> {
    decimal(ce.size as nat) + seq![32u8] + entry_key(ce) + seq![0u8]
}

/// No byte of the name is zero.
pub open spec fn name_has_no_zero(ce: CacheEntry) -> bool {
    forall|i: int| 0 <= i < entry_key(ce).len() ==> #[trigger] entry_key(ce)[i] != 0
}

/// Listing a tree gives back its entries: for an index whose names hold no
/// zero byte, the listing of its tree body has one line per entry, with the
/// entry's size and name, followed by its digest, and is complete.
pub proof fn lemma_tree_listing_roundtrip(s: Seq<CacheEntry>)
    requires
        forall|i: int| 0 <= i < s.len() ==> name_has_no_zero(#[trigger] s[i]),
    ensures
        tree_listing(tree_body(s)) == (
            s.map_values(|ce: CacheEntry| (tree_line(ce), ce.sha1@)),
            false,
        ),
    decreases s.len(),
{
    if s.len() == 0 {
        assert(s.map_values(|ce: CacheEntry| (tree_line(ce), ce.sha1@)) =~= seq![]);
    } else {
        let ce = s[0];
        let rest = s.drop_first();
        let b = tree_body(s);
        let line = tree_line(ce);
        assert(name_has_no_zero(s[0]));
        lemma_decimal_digits(ce.size as nat);
        assert(b =~= line + ce.sha1@ + tree_body(rest));
        let zl = line.len() - 1;
        assert forall|i: int| 0 <= i < zl implies #[trigger] b[i] != 0 by {
            let dl = decimal(ce.size as nat).len() as int;
            if i < dl {
                assert(b[i] == decimal(ce.size as nat)[i]);
            } else if i > dl {
                assert(b[i] == entry_key(ce)[i - dl - 1]);
            }
        }
        assert(b[zl] == 0);
        lemma_zero_index_at(b, zl);
        assert(first_line_len(b) == line.len());
        assert(b.take(line.len() as int) =~= line);
        assert(b.skip(line.len() as int).take(20) =~= ce.sha1@);
        assert(b.skip(line.len() as int).skip(20) =~= tree_body(rest));
        assert forall|i: int| 0 <= i < rest.len() implies name_has_no_zero(#[trigger] rest[i]) by {
            assert(rest[i] == s[i + 1]);
        }
        lemma_tree_listing_roundtrip(rest);
        assert(s.map_values(|c: CacheEntry| (tree_line(c), c.sha1@)) =~= seq![
            (line, ce.sha1@),
        ] + rest.map_values(|c: CacheEntry| (tree_line(c), c.sha1@)));
    }
}


/// Objects are named by their content: storing equal content twice gives
/// the same compressed bytes and the same digest, hence the same file.
pub proof fn lemma_equal_content_same_name(c1: Seq<u8>, c2: Seq<u8>)
    requires
        c1 == c2,
    ensures
        zlib_compressed(c1, OBJECT_COMPRESSION) == zlib_compressed(c2, OBJECT_COMPRESSION),
        sha1_of(zlib_compressed(c1, OBJECT_COMPRESSION)) == sha1_of(
            zlib_compressed(c2, OBJECT_COMPRESSION),
        ),
{
}


/// A blob records the file's length and holds its contents: for a non-empty
/// file the object is a `blob` whose header's size reads back as the file's
/// length and whose body is the contents; an empty file gives no bytes.
pub proof fn lemma_blob_object_reads_back(file_len: nat, data: Seq<u8>)
    ensures
        file_len == 0 ==> blob_object(file_len, data).len() == 0,
        file_len > 0 ==> header_kind(object_header(blob_object(file_len, data))) == blob_kind(),
        file_len > 0 ==> is_canonical_decimal(size_field(blob_object(file_len, data))),
        file_len > 0 ==> decimal_value(size_field(blob_object(file_len, data))) == file_len,
        file_len > 0 ==> object_body(blob_object(file_len, data)) == data,
        blob_kind() == seq![98u8, 108u8, 111u8, 98u8],
{
    if file_len > 0 {
        lemma_framed_parts(blob_kind(), file_len, data);
    }
}

/// A tree counts its own body: the object is a `tree` whose header's size
/// reads back as the length of the body plus one (the zero byte before it),
/// and whose body is the index's entries.
pub proof fn lemma_tree_object_reads_back(s: Seq<CacheEntry>)
    ensures
        header_kind(object_header(tree_object(s))) == tree_kind(),
        object_body(tree_object(s)) == tree_body(s),
        is_canonical_decimal(size_field(tree_object(s))),
        decimal_value(size_field(tree_object(s))) == object_body(tree_object(s)).len() + 1,
        tree_kind() == seq![116u8, 114u8, 101u8, 101u8],
{
    lemma_framed_parts(tree_kind(), tree_body(s).len() + 1, tree_body(s));
}

/// A tree's body lists the index's entries in order: for an index whose names
/// hold no zero byte, reading the body gives one line and digest per entry,
/// the line being the size (a decimal numeral that reads back as the entry's
/// size), a space, the name and a zero byte, and the digest the entry's.
pub proof fn lemma_tree_body_lists_entries(s: Seq<CacheEntry>)
    requires
        forall|i: int| 0 <= i < s.len() ==> name_has_no_zero(#[trigger] s[i]),
    ensures
        !tree_listing(tree_body(s)).1,
        tree_listing(tree_body(s)).0.len() == s.len(),
        forall|i: int|
            #![trigger tree_listing(tree_body(s)).0[i]]
            0 <= i < s.len() ==> {
                let line = tree_listing(tree_body(s)).0[i].0;
                let sp = space_index(line) as int;
                &&& line.len() >= sp + 2
                &&& line[sp] == 32
                &&& line.last() == 0
                &&& is_canonical_decimal(line.take(sp))
                &&& decimal_value(line.take(sp)) == s[i].size
                &&& line.subrange(sp + 1, line.len() - 1) == entry_key(s[i])
                &&& tree_listing(tree_body(s)).0[i].1 == s[i].sha1@
            },
{
    lemma_tree_listing_roundtrip(s);
    let l = tree_listing(tree_body(s)).0;
    assert forall|i: int| 0 <= i < s.len() implies {
        let line = #[trigger] l[i].0;
        let sp = space_index(line) as int;
        &&& line.len() >= sp + 2
        &&& line[sp] == 32
        &&& line.last() == 0
        &&& is_canonical_decimal(line.take(sp))
        &&& decimal_value(line.take(sp)) == s[i].size
        &&& line.subrange(sp + 1, line.len() - 1) == entry_key(s[i])
        &&& l[i].1 == s[i].sha1@
    } by {
        let ce = s[i];
        let line = l[i].0;
        let d = decimal(ce.size as nat);
        assert(line == tree_line(ce));
        lemma_decimal_reads_back(ce.size as nat);
        assert forall|j: int| 0 <= j < d.len() implies #[trigger] line[j] != 32 by {
            assert(line[j] == d[j]);
        }
        assert(line[d.len() as int] == 32);
        lemma_space_index_at(line, d.len() as int);
        assert(line.take(d.len() as int) =~= d);
        assert(line.subrange(d.len() as int + 1, line.len() - 1) =~= entry_key(ce));
    }
}

} // verus!
