//! Hexadecimal names of SHA-1 digests and the object paths built from them.
use vstd::prelude::*;
use vstd::string::*;
use vstd::utf8::*;

use crate::constants::DB_ENVIRONMENT;
use crate::external::{hex_digit_value, radix16_pair, u8_from_str_radix, utf8_lossy_string};

verus! {

/// Lower-case hexadecimal digit for a value below 16.
pub open spec fn hex_digit(n: int) -> u8 {
    if n < 10 {
        (48 + n) as u8
    } else {
        (87 + n) as u8
    }
}

/// The lower-case hexadecimal text of a byte sequence, two digits per byte,
/// high nibble first.
pub open spec fn hex_encode(s: Seq<u8>) -> Seq<u8> {
    Seq::new(
        2 * s.len(),
        |j: int|
            if j % 2 == 0 {
                hex_digit(s[j / 2] as int / 16)
            } else {
                hex_digit(s[j / 2] as int % 16)
            },
    )
}

/// Characters of an ASCII byte sequence.
pub open spec fn ascii_chars(b: Seq<u8>) -> Seq<char> {
    b.map_values(|x: u8| x as char)
}

/// Every byte is below 128.
pub open spec fn all_ascii(b: Seq<u8>) -> bool {
    forall|i: int| 0 <= i < b.len() ==> #[trigger] b[i] < 128
}

/// An ASCII byte sequence is valid UTF-8 and decodes to the same characters.
pub proof fn lemma_ascii_utf8(b: Seq<u8>)
    requires
        all_ascii(b),
    ensures
        valid_utf8(b),
        decode_utf8(b) == ascii_chars(b),
        encode_utf8(ascii_chars(b)) == b,
{
    let chars = ascii_chars(b);
    assert(is_ascii_chars(chars)) by {
        assert forall|i: int| 0 <= i < chars.len() implies '\0' <= #[trigger] chars[i] <= '\u{7f}' by {
            assert(b[i] < 128);
        }
    }
    is_ascii_chars_encode_utf8(chars);
    assert(encode_utf8(chars) =~= b);
    encode_utf8_valid_utf8(chars);
    encode_utf8_decode_utf8(chars);
}

/// Hexadecimal digit of a nibble.
fn hex_char(n: u8) -> (c: u8)
    requires
        n < 16,
    ensures
        c == hex_digit(n as int),
{
    if n < 10 {
        48 + n
    } else {
        87 + n
    }
}

/// Appends the hexadecimal text of `bytes[from..to]`.
fn push_hex(buf: &mut Vec<u8>, bytes: &[u8], from: usize, to: usize)
    requires
        from <= to <= bytes@.len(),
    ensures
        final(buf)@ == old(buf)@ + hex_encode(bytes@.subrange(from as int, to as int)),
{
    let ghost start = buf@;
    let ghost part = bytes@.subrange(from as int, to as int);
    let mut i: usize = from;
    while i < to
        invariant
            from <= i <= to <= bytes@.len(),
            part == bytes@.subrange(from as int, to as int),
            buf@.len() == start.len() + 2 * (i - from),
            forall|j: int| 0 <= j < start.len() ==> buf@[j] == start[j],
            forall|j: int|
                0 <= j < 2 * (i - from) ==> buf@[start.len() + j] == hex_encode(part)[j],
        decreases to - i,
    {
        let byte = bytes[i];
        assert(byte >> 4 == byte / 16 && byte & 0xf == byte % 16) by (bit_vector);
        buf.push(hex_char(byte >> 4));
        buf.push(hex_char(byte & 0xf));
        proof {
            let k = 2 * (i - from);
            assert(part[(k / 2) as int] == byte);
            assert(part[((k + 1) / 2) as int] == byte);
        }
        i = i + 1;
    }
    assert(buf@ =~= start + hex_encode(part));
}

/// Hexadecimal text is ASCII.
proof fn lemma_hex_ascii(s: Seq<u8>)
    ensures
        all_ascii(hex_encode(s)),
{
}

/// The UTF-8 encoding of a concatenation is the concatenation of the encodings.
pub proof fn lemma_encode_utf8_concat(c1: Seq<char>, c2: Seq<char>)
    ensures
        encode_utf8(c1 + c2) == encode_utf8(c1) + encode_utf8(c2),
    decreases c1.len(),
{
    if c1.len() == 0 {
        assert(c1 + c2 =~= c2);
    } else {
        lemma_encode_utf8_concat(c1.drop_first(), c2);
        assert((c1 + c2).drop_first() =~= c1.drop_first() + c2);
        assert(encode_utf8(c1 + c2) =~= encode_utf8(c1) + encode_utf8(c2));
    }
}

/// The 40-character lower-case hexadecimal name of a digest.
pub fn sha1_to_hex(sha1: &[u8; 20]) -> (res: String)
    ensures
        res@ == ascii_chars(hex_encode(sha1@)),
{
    let mut buf: Vec<u8> = Vec::with_capacity(40);
    push_hex(&mut buf, sha1.as_slice(), 0, 20);
    assert(sha1@.subrange(0, 20) =~= sha1@);
    assert(buf@ =~= hex_encode(sha1@));
    proof {
        lemma_hex_ascii(sha1@);
        lemma_ascii_utf8(buf@);
    }
    utf8_lossy_string(buf.as_slice())
}

/// Name of an object's file below the object directory: the hexadecimal
/// digits of the first byte, a `/`, then those of the other nineteen.
pub open spec fn object_file_name(s: Seq<u8>) -> Seq<u8> {
    hex_encode(s.take(1)) + seq![47u8] + hex_encode(s.skip(1))
}

/// Path of the file that holds the object with the given digest.
pub open spec fn object_path(s: Seq<u8>) -> Seq<char> {
    DB_ENVIRONMENT@ + ascii_chars(object_file_name(s))
}

/// Path of the file that holds the object with the given digest: the object
/// directory, two hexadecimal digits, `/`, and the other 38 digits.
pub fn build_sha1_path(sha1: &[u8; 20]) -> (res: String)
    ensures
        res@ == object_path(sha1@),
        res@ == DB_ENVIRONMENT@ + ascii_chars(hex_encode(sha1@)).take(2) + seq!['/']
            + ascii_chars(hex_encode(sha1@)).skip(2),
{
    proof {
        lemma_object_path_from_hex(sha1@);
    }
    let env = DB_ENVIRONMENT.as_bytes();
    let mut buf: Vec<u8> = Vec::new();
    buf.extend_from_slice(env);
    assert(buf@ =~= env@);
    push_hex(&mut buf, sha1.as_slice(), 0, 1);
    buf.push(47u8);
    push_hex(&mut buf, sha1.as_slice(), 1, 20);
    let ghost name = object_file_name(sha1@);
    proof {
        assert(sha1@.subrange(0, 1) =~= sha1@.take(1));
        assert(sha1@.subrange(1, 20) =~= sha1@.skip(1));
        assert(buf@ =~= env@ + name);
        lemma_hex_ascii(sha1@.take(1));
        lemma_hex_ascii(sha1@.skip(1));
        assert(all_ascii(name)) by {
            assert forall|i: int| 0 <= i < name.len() implies #[trigger] name[i] < 128 by {
                let h0 = hex_encode(sha1@.take(1));
                if i < h0.len() {
                    assert(name[i] == h0[i]);
                } else if i > h0.len() {
                    assert(name[i] == hex_encode(sha1@.skip(1))[i - h0.len() - 1]);
                }
            }
        }
        lemma_ascii_utf8(name);
        encode_utf8_valid_utf8(DB_ENVIRONMENT@);
        lemma_encode_utf8_concat(DB_ENVIRONMENT@, ascii_chars(name));
        encode_utf8_decode_utf8(object_path(sha1@));
        encode_utf8_valid_utf8(object_path(sha1@));
        assert(env@ == encode_utf8(DB_ENVIRONMENT@));
        assert(buf@ == encode_utf8(object_path(sha1@)));
    }
    utf8_lossy_string(buf.as_slice())
}

/// Pair `k` of a hexadecimal name, bytes `2k` and `2k + 1`, can be cut out of
/// the text: it lies inside it and starts and ends on character boundaries.
pub open spec fn pair_in_bounds(b: Seq<u8>, k: int) -> bool {
    &&& 2 * k + 2 <= b.len()
    &&& is_char_boundary(b, 2 * k)
    &&& is_char_boundary(b, 2 * k + 2)
}

/// The byte that pair `k` of a hexadecimal name denotes, if any.
pub open spec fn pair_value(b: Seq<u8>, k: int) -> Option<u8> {
    radix16_pair(b[2 * k], b[2 * k + 1])
}

/// The first `k` pairs can be cut out and each denotes a byte.
pub open spec fn pairs_ok_upto(b: Seq<u8>, k: int) -> bool {
    forall|j: int| 0 <= j < k ==> pair_in_bounds(b, j) && (#[trigger] pair_value(b, j)) is Some
}

/// Reading the 20 pairs in order reaches a pair that cannot be cut out of the
/// text before it meets one that is not a number: the reader fails on slicing.
pub open spec fn hex_scan_breaks(b: Seq<u8>) -> bool {
    exists|k: int| 0 <= k < 20 && pairs_ok_upto(b, k) && !pair_in_bounds(b, k)
}

/// The digest that a hexadecimal name denotes, when all 20 pairs are numbers.
pub open spec fn decode_hex_sha1(b: Seq<u8>) -> Option<Seq<u8>> {
    if pairs_ok_upto(b, 20) {
        Some(Seq::new(20, |k: int| pair_value(b, k).unwrap()))
    } else {
        None
    }
}

/// A character boundary of a valid text stays a boundary of the text that
/// starts at an earlier boundary.
proof fn lemma_boundary_in_suffix(b: Seq<u8>, start: int, i: int)
    requires
        valid_utf8(b),
        0 <= start <= b.len(),
        0 <= i,
        start + i <= b.len(),
        is_char_boundary(b, start),
        is_char_boundary(b, start + i),
    ensures
        valid_utf8(b.subrange(start, b.len() as int)),
        is_char_boundary(b.subrange(start, b.len() as int), i),
{
    let rest = b.subrange(start, b.len() as int);
    valid_utf8_split(b, start);
    if i == 0 {
        is_char_boundary_start_end_of_seq(rest);
    } else if start + i == b.len() {
        is_char_boundary_start_end_of_seq(rest);
        assert(rest.len() == i);
    } else {
        is_char_boundary_iff_not_is_continuation_byte(b, start + i);
        is_char_boundary_iff_not_is_continuation_byte(rest, i);
        assert(rest[i] == b[start + i]);
    }
}

/// Reads the digest named by the first 40 bytes of a hexadecimal text, or
/// reports, as `None`, that reading it would cut the text outside its bounds
/// or inside a character.
pub fn try_hex_to_sha1(hex: &str) -> (res: Option<Result<[u8; 20], std::num::ParseIntError>>)
    ensures
        res is None <==> hex_scan_breaks(hex.spec_bytes()),
        res matches Some(r) ==> (r is Ok <==> decode_hex_sha1(hex.spec_bytes()) is Some),
        res matches Some(Ok(a)) ==> Some(a@) == decode_hex_sha1(hex.spec_bytes()),
{
    let ghost b = hex.spec_bytes();
    proof {
        encode_utf8_valid_utf8(hex@);
    }
    let bytes = hex.as_bytes();
    let len = bytes.len();
    let mut sha1 = [0u8; 20];
    let mut i: usize = 0;
    while i < 20
        invariant
            i <= 20,
            b == hex.spec_bytes(),
            valid_utf8(b),
            len == b.len(),
            pairs_ok_upto(b, i as int),
            sha1@.len() == 20,
            forall|j: int| 0 <= j < i ==> Some(#[trigger] sha1@[j]) == pair_value(b, j),
        decreases 20 - i,
    {
        if len < 2 * i + 2 || !hex.is_char_boundary(2 * i) || !hex.is_char_boundary(2 * i + 2) {
            assert(hex_scan_breaks(b)) by {
                assert(!pair_in_bounds(b, i as int));
            }
            return None;
        }
        let (_, rest) = hex.split_at(2 * i);
        proof {
            lemma_boundary_in_suffix(b, 2 * i as int, 2);
        }
        let (pair, _) = rest.split_at(2);
        assert(pair.spec_bytes()[0] == b[2 * i as int]);
        assert(pair.spec_bytes()[1] == b[2 * i + 1]);
        match u8_from_str_radix(pair, 16) {
            Ok(v) => {
                sha1[i] = v;
                i = i + 1;
            },
            Err(e) => {
                assert(!hex_scan_breaks(b)) by {
                    if hex_scan_breaks(b) {
                        let k = choose|k: int| 0 <= k < 20 && pairs_ok_upto(b, k) && !pair_in_bounds(b, k);
                        if k < i {
                            assert(pair_value(b, k) is Some);
                        } else if k == i {
                        } else {
                            assert(pair_value(b, i as int) is Some);
                        }
                    }
                }
                assert(decode_hex_sha1(b) is None) by {
                    assert(pair_value(b, i as int) is None);
                }
                return Some(Err(e));
            },
        }
    }
    assert(!hex_scan_breaks(b)) by {
        if hex_scan_breaks(b) {
            let k = choose|k: int| 0 <= k < 20 && pairs_ok_upto(b, k) && !pair_in_bounds(b, k);
            assert(pair_value(b, k) is Some);
        }
    }
    assert(sha1@ =~= Seq::new(20, |k: int| pair_value(b, k).unwrap()));
    Some(Ok(sha1))
}

/// Reads the digest named by the first 40 bytes of a hexadecimal text. Each
/// pair of bytes is read as `u8::from_str_radix(_, 16)` reads it; the first
/// pair that is not a number gives the error.
pub fn hex_to_sha1(hex: &str) -> (res: Result<[u8; 20], std::num::ParseIntError>)
    requires
        !hex_scan_breaks(hex.spec_bytes()),
    ensures
        res is Ok <==> decode_hex_sha1(hex.spec_bytes()) is Some,
        res matches Ok(a) ==> Some(a@) == decode_hex_sha1(hex.spec_bytes()),
{
    match try_hex_to_sha1(hex) {
        Some(r) => r,
        None => {
            assert(false);
            Ok([0u8; 20])
        },
    }
}

/// A lower-case hexadecimal digit.
pub open spec fn is_lower_hex_digit(c: u8) -> bool {
    (48 <= c <= 57) || (97 <= c <= 102)
}

proof fn lemma_hex_digit_value(n: int)
    requires
        0 <= n < 16,
    ensures
        hex_digit_value(hex_digit(n)) == Some(n as u8),
        hex_digit(n) != 43,
        is_lower_hex_digit(hex_digit(n)),
{
}

/// Every index of an ASCII text is a character boundary.
proof fn lemma_ascii_boundary(b: Seq<u8>, i: int)
    requires
        all_ascii(b),
        0 <= i <= b.len(),
    ensures
        valid_utf8(b),
        is_char_boundary(b, i),
{
    lemma_ascii_utf8(b);
    if i == b.len() {
        is_char_boundary_start_end_of_seq(b);
    } else {
        is_char_boundary_iff_not_is_continuation_byte(b, i);
        assert(b[i] < 128);
    }
}

/// Reading back the hexadecimal name of a digest gives the digest: the text
/// that `sha1_to_hex` returns is read by `hex_to_sha1` without fault, and
/// denotes the same 20 bytes.
pub proof fn lemma_sha1_hex_roundtrip(x: [u8; 20])
    ensures
        !hex_scan_breaks(encode_utf8(ascii_chars(hex_encode(x@)))),
        decode_hex_sha1(encode_utf8(ascii_chars(hex_encode(x@)))) == Some(x@),
{
    let h = hex_encode(x@);
    lemma_hex_ascii(x@);
    lemma_ascii_utf8(h);
    let b = encode_utf8(ascii_chars(h));
    assert(b == h);
    assert forall|k: int| 0 <= k < 20 implies pair_in_bounds(b, k) && (#[trigger] pair_value(b, k)) == Some(x@[k]) by {
        lemma_ascii_boundary(b, 2 * k);
        lemma_ascii_boundary(b, 2 * k + 2);
        let v = x@[k];
        assert(b[2 * k] == hex_digit(v as int / 16));
        assert(b[2 * k + 1] == hex_digit(v as int % 16));
        lemma_hex_digit_value(v as int / 16);
        lemma_hex_digit_value(v as int % 16);
    }
    assert(pairs_ok_upto(b, 20));
    assert(!hex_scan_breaks(b)) by {
        if hex_scan_breaks(b) {
            let k = choose|k: int| 0 <= k < 20 && pairs_ok_upto(b, k) && !pair_in_bounds(b, k);
            assert(pair_value(b, k) == Some(x@[k]));
        }
    }
    assert(Seq::new(20, |k: int| pair_value(b, k).unwrap()) =~= x@);
}

/// A 40-byte lower-case hexadecimal text is read without fault, and writing
/// the digest it denotes gives the same text back.
pub proof fn lemma_hex_text_roundtrip(b: Seq<u8>)
    requires
        b.len() == 40,
        forall|i: int| 0 <= i < 40 ==> is_lower_hex_digit(#[trigger] b[i]),
    ensures
        !hex_scan_breaks(b),
        decode_hex_sha1(b) is Some,
        hex_encode(decode_hex_sha1(b).unwrap()) == b,
{
    assert(all_ascii(b)) by {
        assert forall|i: int| 0 <= i < b.len() implies #[trigger] b[i] < 128 by {
            assert(is_lower_hex_digit(b[i]));
        }
    }
    assert forall|k: int| 0 <= k < 20 implies pair_in_bounds(b, k) && (#[trigger] pair_value(b, k)) is Some by {
        lemma_ascii_boundary(b, 2 * k);
        lemma_ascii_boundary(b, 2 * k + 2);
        assert(is_lower_hex_digit(b[2 * k]));
        assert(is_lower_hex_digit(b[2 * k + 1]));
    }
    assert(pairs_ok_upto(b, 20));
    assert(!hex_scan_breaks(b)) by {
        if hex_scan_breaks(b) {
            let k = choose|k: int| 0 <= k < 20 && pairs_ok_upto(b, k) && !pair_in_bounds(b, k);
            assert(pair_value(b, k) is Some);
        }
    }
    let d = decode_hex_sha1(b).unwrap();
    assert forall|j: int| 0 <= j < 40 implies #[trigger] hex_encode(d)[j] == b[j] by {
        let k = j / 2;
        assert(is_lower_hex_digit(b[2 * k]));
        assert(is_lower_hex_digit(b[2 * k + 1]));
        assert(pair_value(b, k) is Some);
    }
    assert(hex_encode(d) =~= b);
}


/// Different digests name different object files: the path of an object
/// determines its digest.
pub proof fn lemma_object_path_injective(a: Seq<u8>, b: Seq<u8>)
    requires
        a.len() == 20,
        b.len() == 20,
        object_path(a) == object_path(b),
    ensures
        a == b,
{
    let na = object_file_name(a);
    let nb = object_file_name(b);
    let env = DB_ENVIRONMENT@;
    assert(a.take(1).len() == 1 && b.take(1).len() == 1);
    assert(a.skip(1).len() == 19 && b.skip(1).len() == 19);
    assert(na.len() == 41 && nb.len() == 41);
    assert forall|i: int| 0 <= i < na.len() implies na[i] == nb[i] by {
        let ca = ascii_chars(na);
        let cb = ascii_chars(nb);
        assert(ca.len() == 41 && cb.len() == 41);
        assert((env + ca)[env.len() + i] == ca[i]);
        assert((env + cb)[env.len() + i] == cb[i]);
        assert(object_path(a) == env + ca);
        assert(ca[i] == cb[i]);
        assert((na[i] as char) == (nb[i] as char));
    }
    assert forall|k: int| 0 <= k < 20 implies a[k] == b[k] by {
        let (ha, hb, j) = if k == 0 {
            (hex_encode(a.take(1)), hex_encode(b.take(1)), 0int)
        } else {
            (hex_encode(a.skip(1)), hex_encode(b.skip(1)), 2 * (k - 1))
        };
        let off = if k == 0 {
            0int
        } else {
            3int
        };
        assert(na[off + j] == ha[j] && nb[off + j] == hb[j]);
        assert(na[off + j + 1] == ha[j + 1] && nb[off + j + 1] == hb[j + 1]);
        lemma_hex_digit_value(a[k] as int / 16);
        lemma_hex_digit_value(a[k] as int % 16);
        lemma_hex_digit_value(b[k] as int / 16);
        lemma_hex_digit_value(b[k] as int % 16);
        assert(a[k] as int / 16 == b[k] as int / 16);
        assert(a[k] as int % 16 == b[k] as int % 16);
    }
    assert(a =~= b);
}


/// The upper-case form of an ASCII byte (other bytes stay as they are).
pub open spec fn ascii_upper(c: u8) -> u8 {
    if 97 <= c <= 122 {
        (c - 32) as u8
    } else {
        c
    }
}

/// The letter case of a hexadecimal name does not matter: an ASCII text and
/// its upper-case form are read the same way, with the same outcome (the same
/// digest, the same refusal, or the same fault).
pub proof fn lemma_hex_case_blind(b: Seq<u8>, u: Seq<u8>)
    requires
        all_ascii(b),
        u.len() == b.len(),
        forall|i: int| 0 <= i < b.len() ==> #[trigger] u[i] == ascii_upper(b[i]),
    ensures
        hex_scan_breaks(u) == hex_scan_breaks(b),
        decode_hex_sha1(u) == decode_hex_sha1(b),
{
    assert(all_ascii(u)) by {
        assert forall|i: int| 0 <= i < u.len() implies #[trigger] u[i] < 128 by {
            assert(b[i] < 128);
        }
    }
    assert forall|k: int| 0 <= k < 20 implies pair_in_bounds(u, k) == pair_in_bounds(b, k) by {
        if 2 * k + 2 <= b.len() {
            lemma_ascii_boundary(b, 2 * k);
            lemma_ascii_boundary(b, 2 * k + 2);
            lemma_ascii_boundary(u, 2 * k);
            lemma_ascii_boundary(u, 2 * k + 2);
        }
    }
    assert forall|k: int| 0 <= k < 20 && 2 * k + 2 <= b.len() implies #[trigger] pair_value(u, k)
        == pair_value(b, k) by {
        assert(u[2 * k] == ascii_upper(b[2 * k]));
        assert(u[2 * k + 1] == ascii_upper(b[2 * k + 1]));
    }
    assert forall|k: int| 0 <= k <= 20 implies #[trigger] pairs_ok_upto(u, k) == pairs_ok_upto(b, k)
        by {
        if pairs_ok_upto(u, k) {
            assert forall|j: int| 0 <= j < k implies pair_in_bounds(b, j) && (#[trigger] pair_value(
                b,
                j,
            )) is Some by {
                assert(pair_in_bounds(u, j) && pair_value(u, j) is Some);
            }
        }
        if pairs_ok_upto(b, k) {
            assert forall|j: int| 0 <= j < k implies pair_in_bounds(u, j) && (#[trigger] pair_value(
                u,
                j,
            )) is Some by {
                assert(pair_in_bounds(b, j) && pair_value(b, j) is Some);
            }
        }
    }
    if hex_scan_breaks(u) {
        let k = choose|k: int| 0 <= k < 20 && pairs_ok_upto(u, k) && !pair_in_bounds(u, k);
        assert(pairs_ok_upto(b, k) && !pair_in_bounds(b, k));
    }
    if hex_scan_breaks(b) {
        let k = choose|k: int| 0 <= k < 20 && pairs_ok_upto(b, k) && !pair_in_bounds(b, k);
        assert(pairs_ok_upto(u, k) && !pair_in_bounds(u, k));
    }
    assert(pairs_ok_upto(u, 20) == pairs_ok_upto(b, 20));
    if pairs_ok_upto(b, 20) {
        assert(Seq::new(20, |k: int| pair_value(u, k).unwrap()) =~= Seq::new(
            20,
            |k: int| pair_value(b, k).unwrap(),
        ));
    }
}


/// An object's path is its hexadecimal name split after the first two
/// digits: the object directory, the first two digits of the name that
/// `sha1_to_hex` gives, a `/`, and the other 38 digits, in order.
pub proof fn lemma_object_path_from_hex(s: Seq<u8>)
    requires
        s.len() == 20,
    ensures
        object_path(s) == DB_ENVIRONMENT@ + ascii_chars(hex_encode(s)).take(2) + seq!['/']
            + ascii_chars(hex_encode(s)).skip(2),
{
    let h = hex_encode(s);
    let n = object_file_name(s);
    assert(s.take(1).len() == 1);
    assert(s.skip(1).len() == 19);
    assert forall|j: int| 0 <= j < 40 implies #[trigger] h[j] == (if j < 2 {
        n[j]
    } else {
        n[j + 1]
    }) by {
        if j < 2 {
            assert(hex_encode(s.take(1))[j] == n[j]);
            assert(s.take(1)[j / 2] == s[j / 2]);
        } else {
            assert(hex_encode(s.skip(1))[j - 2] == n[j + 1]);
            assert(s.skip(1)[(j - 2) / 2] == s[j / 2]);
            assert((j - 2) / 2 == j / 2 - 1);
            assert((j - 2) % 2 == j % 2);
        }
    }
    assert(n[2] == 47u8);
    assert(ascii_chars(n) =~= ascii_chars(h).take(2) + seq!['/'] + ascii_chars(h).skip(2));
}

} // verus!
