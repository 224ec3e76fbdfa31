use depot::cache::{add_cache_entry, cache_name_pos, compare_names, remove_cache_entry, NameOrder};
use depot::commit::{build_commit_object, parse_commit_args, CommitArgsError};
use depot::diff::{diff_metadata, render_diff, CREATED, MODIFIED, SIZE};
use depot::encoding::{decimal_bytes, prepend_integer, push_be, read_be};
use depot::hex::{build_sha1_path, hex_to_sha1, sha1_to_hex, try_hex_to_sha1};
use depot::index_file::{parse_cache, serialize_cache, verify_header, CacheError};
use depot::model::CacheEntry;
use depot::object::{
    blob_content, build_tree_object, compress_object, decode_sha1_file,
    decode_sha1_file_of_kind, decode_sha1_file_text, list_tree_entries, ObjectError,
};
use sha1::Digest;

fn digest(seed: u8) -> [u8; 20] {
    let mut d = [0u8; 20];
    for (i, b) in d.iter_mut().enumerate() {
        *b = seed.wrapping_add(i as u8 * 13);
    }
    d
}

fn entry(name: &str, size: u64, seed: u8) -> CacheEntry {
    CacheEntry::new(name.to_string(), 1_000 + seed as u128, 2_000 + seed as u128, size, digest(seed))
}

fn names(cache: &[CacheEntry]) -> Vec<String> {
    cache.iter().map(|e| e.name.clone()).collect()
}

// ---- hexadecimal names ----

#[test]
fn sha1_to_hex_writes_lower_case_pairs() {
    let mut d = [0u8; 20];
    d[0] = 0x01;
    d[1] = 0xab;
    d[19] = 0xff;
    let hex = sha1_to_hex(&d);
    assert_eq!(hex, format!("01ab{}ff", "00".repeat(17)));
}

#[test]
fn build_sha1_path_splits_after_first_byte() {
    let d = [0xabu8; 20];
    let path = build_sha1_path(&d);
    let expected = format!(".depot/objects/ab/{}", "ab".repeat(19));
    assert_eq!(path, expected);
}

#[test]
fn different_digests_name_different_files() {
    let mut a = [7u8; 20];
    let b = a;
    a[19] = 8;
    assert_ne!(build_sha1_path(&a), build_sha1_path(&b));
    assert_eq!(build_sha1_path(&b), build_sha1_path(&[7u8; 20]));
}

#[test]
fn hex_to_sha1_reads_both_cases() {
    let text = "00112233445566778899AABBCCDDEEFFaabbccdd";
    let d = hex_to_sha1(text).unwrap();
    assert_eq!(d[0], 0x00);
    assert_eq!(d[1], 0x11);
    assert_eq!(d[10], 0xaa);
    assert_eq!(d[15], 0xff);
    assert_eq!(d[19], 0xdd);
}

#[test]
fn hex_to_sha1_ignores_letter_case() {
    let lower = "0a1b2c3d4e5f6a7b8c9dabcdef0123456789abcd";
    assert_eq!(hex_to_sha1(lower).unwrap(), hex_to_sha1(&lower.to_ascii_uppercase()).unwrap());
    let bad = format!("g{}", "0".repeat(39));
    assert!(hex_to_sha1(&bad).is_err());
    assert!(hex_to_sha1(&bad.to_ascii_uppercase()).is_err());
}

#[test]
fn equal_content_gets_equal_name() {
    let c = blob_content(3, b"abc");
    let (z1, n1) = compress_object(&c);
    let (z2, n2) = compress_object(&c.clone());
    assert_eq!(z1, z2);
    assert_eq!(n1, n2);
}

#[test]
fn hex_to_sha1_accepts_plus_sign_pair() {
    let text = format!("+f{}", "00".repeat(19));
    let d = hex_to_sha1(&text).unwrap();
    assert_eq!(d[0], 0x0f);
}

#[test]
fn hex_to_sha1_rejects_non_digits() {
    let text = format!("zz{}", "00".repeat(19));
    assert!(hex_to_sha1(&text).is_err());
    let text = format!("{}-1", "00".repeat(19));
    assert!(hex_to_sha1(&text).is_err());
}

#[test]
fn hex_to_sha1_ignores_what_follows_forty_bytes() {
    let text = format!("{}trailing", "12".repeat(20));
    assert_eq!(hex_to_sha1(&text).unwrap(), [0x12u8; 20]);
}

#[test]
fn try_hex_to_sha1_reports_short_text() {
    assert!(try_hex_to_sha1("abcd").is_none());
    // an error before the end is reported as an error, not as a fault
    assert!(matches!(try_hex_to_sha1("zz"), Some(Err(_))));
}

#[test]
fn try_hex_to_sha1_reports_cut_inside_character() {
    // 'é' is two bytes, starting at byte 1: the first pair would cut it
    let text = format!("aé{}", "00".repeat(20));
    assert!(try_hex_to_sha1(&text).is_none());
    // aligned on a pair, it is read and refused
    let text = format!("é{}", "00".repeat(20));
    assert!(matches!(try_hex_to_sha1(&text), Some(Err(_))));
}

#[test]
fn hex_roundtrip_of_digest() {
    for seed in [0u8, 7, 200] {
        let d = digest(seed);
        assert_eq!(hex_to_sha1(&sha1_to_hex(&d)).unwrap(), d);
    }
}

#[test]
fn hex_roundtrip_of_text() {
    let text = "0123456789abcdef0123456789abcdef01234567";
    assert_eq!(sha1_to_hex(&hex_to_sha1(text).unwrap()), text);
}

// ---- the index ----

#[test]
fn compare_names_is_bytewise() {
    assert_eq!(compare_names(b"a", b"b"), NameOrder::Less);
    assert_eq!(compare_names(b"ab", b"a"), NameOrder::Greater);
    assert_eq!(compare_names(b"a", b"ab"), NameOrder::Less);
    assert_eq!(compare_names(b"abc", b"abc"), NameOrder::Equal);
    assert_eq!(compare_names(b"B", b"a"), NameOrder::Less);
    assert_eq!(compare_names(b"", b""), NameOrder::Equal);
}

#[test]
fn cache_name_pos_finds_and_places() {
    let cache = vec![entry("a", 1, 1), entry("c", 1, 2), entry("e", 1, 3)];
    assert_eq!(cache_name_pos("a", &cache), -1);
    assert_eq!(cache_name_pos("c", &cache), -2);
    assert_eq!(cache_name_pos("e", &cache), -3);
    assert_eq!(cache_name_pos("0", &cache), 0);
    assert_eq!(cache_name_pos("b", &cache), 1);
    assert_eq!(cache_name_pos("d", &cache), 2);
    assert_eq!(cache_name_pos("f", &cache), 3);
    assert_eq!(cache_name_pos("x", &[]), 0);
}

#[test]
fn add_cache_entry_keeps_names_sorted() {
    let mut cache = Vec::new();
    for (i, n) in ["src/main.rs", "README", "src/a.rs", "Cargo.toml", "b"].iter().enumerate() {
        add_cache_entry(entry(n, i as u64, i as u8), &mut cache);
    }
    assert_eq!(names(&cache), vec!["Cargo.toml", "README", "b", "src/a.rs", "src/main.rs"]);
}

#[test]
fn add_cache_entry_replaces_same_name() {
    let mut cache = Vec::new();
    add_cache_entry(entry("x", 1, 1), &mut cache);
    add_cache_entry(entry("y", 2, 2), &mut cache);
    add_cache_entry(entry("x", 9, 9), &mut cache);
    assert_eq!(cache.len(), 2);
    assert_eq!(cache[0].name, "x");
    assert_eq!(cache[0].size, 9);
    assert_eq!(cache[0].sha1, digest(9));
    assert_eq!(cache[1].size, 2);
}

#[test]
fn lookup_after_add_gives_the_entry() {
    let mut cache = vec![entry("a", 1, 1), entry("m", 2, 2)];
    add_cache_entry(entry("k", 7, 7), &mut cache);
    let pos = cache_name_pos("k", &cache);
    assert!(pos < 0);
    let e = &cache[(-pos - 1) as usize];
    assert_eq!(e.size, 7);
    assert_eq!(e.sha1, digest(7));
}

#[test]
fn remove_cache_entry_reports_and_removes() {
    let mut cache = vec![entry("a", 1, 1), entry("b", 2, 2), entry("c", 3, 3)];
    assert_eq!(remove_cache_entry("b", &mut cache), 1);
    assert_eq!(names(&cache), vec!["a", "c"]);
    assert_eq!(remove_cache_entry("b", &mut cache), 0);
    assert_eq!(names(&cache), vec!["a", "c"]);
    assert_eq!(remove_cache_entry("a", &mut cache), 1);
    assert_eq!(remove_cache_entry("c", &mut cache), 1);
    assert!(cache.is_empty());
    assert_eq!(remove_cache_entry("c", &mut cache), 0);
}

#[test]
fn remove_undoes_add_of_new_name() {
    let before = vec![entry("a", 1, 1), entry("c", 3, 3)];
    let mut cache = vec![entry("a", 1, 1), entry("c", 3, 3)];
    add_cache_entry(entry("b", 2, 2), &mut cache);
    assert_eq!(remove_cache_entry("b", &mut cache), 1);
    assert_eq!(names(&cache), names(&before));
    assert_eq!(cache[0].sha1, before[0].sha1);
}

#[test]
fn adds_of_different_names_commute() {
    let mut one = vec![entry("m", 1, 1)];
    let mut two = vec![entry("m", 1, 1)];
    add_cache_entry(entry("a", 2, 2), &mut one);
    add_cache_entry(entry("z", 3, 3), &mut one);
    add_cache_entry(entry("z", 3, 3), &mut two);
    add_cache_entry(entry("a", 2, 2), &mut two);
    assert_eq!(names(&one), names(&two));
}

#[test]
fn cache_entry_new_truncates_name_length() {
    let e = entry("héllo", 0, 0);
    assert_eq!(e.namelen, 6);
    let long = "x".repeat(70_000);
    let e = CacheEntry::new(long, 0, 0, 0, [0u8; 20]);
    assert_eq!(e.namelen, (70_000 % 65_536) as u16);
}

// ---- numbers ----

#[test]
fn prepend_integer_writes_digits_before_offset() {
    let mut buf = vec![b'.'; 10];
    let first = prepend_integer(&mut buf, 1234, 8);
    assert_eq!(first, 4);
    assert_eq!(&buf, b"....1234..");
    let mut buf = vec![b'.'; 3];
    assert_eq!(prepend_integer(&mut buf, 0, 2), 1);
    assert_eq!(&buf, b".0.");
}

#[test]
fn decimal_bytes_of_edges() {
    assert_eq!(decimal_bytes(0), b"0");
    assert_eq!(decimal_bytes(10), b"10");
    assert_eq!(decimal_bytes(u64::MAX), u64::MAX.to_string().into_bytes());
}

#[test]
fn big_endian_roundtrip() {
    let mut buf = Vec::new();
    push_be(&mut buf, 0x0102_0304, 4);
    assert_eq!(buf, vec![1, 2, 3, 4]);
    push_be(&mut buf, u128::MAX, 16);
    assert_eq!(read_be(&buf, 0, 4), 0x0102_0304);
    assert_eq!(read_be(&buf, 4, 16), u128::MAX);
    assert_eq!(read_be(&buf, 1, 2), 0x0203);
}

// ---- the index file ----

#[test]
fn serialize_empty_index_has_checksum_of_header() {
    let bytes = serialize_cache(&[], 0);
    assert_eq!(&bytes[0..4], b"DIRC");
    assert_eq!(&bytes[4..8], &[0, 0, 0, 1]);
    assert_eq!(&bytes[8..12], &[0, 0, 0, 0]);
    assert_eq!(
        &bytes[12..32],
        &[118, 189, 219, 64, 101, 107, 248, 145, 89, 139, 92, 44, 194, 70, 228, 214, 189, 110, 44, 160]
    );
    assert_eq!(bytes.len(), 32);
}

#[test]
fn serialize_entry_layout() {
    let e = entry("ab", 5, 3);
    let bytes = serialize_cache(&[e], 1);
    assert_eq!(bytes.len(), 32 + 62 + 2);
    assert_eq!(&bytes[32..48], &(1_003u128).to_be_bytes());
    assert_eq!(&bytes[48..64], &(2_003u128).to_be_bytes());
    assert_eq!(&bytes[64..72], &5u64.to_be_bytes());
    assert_eq!(&bytes[72..92], &digest(3));
    assert_eq!(&bytes[92..94], &[0, 2]);
    assert_eq!(&bytes[94..96], b"ab");
}

#[test]
fn index_file_roundtrip() {
    let cache = vec![entry("Cargo.toml", 10, 1), entry("src/lib.rs", 2000, 2), entry("ü", 0, 3)];
    let bytes = serialize_cache(&cache, 3);
    let back = parse_cache(&bytes).unwrap();
    assert_eq!(back.len(), 3);
    for (a, b) in cache.iter().zip(back.iter()) {
        assert_eq!(a.name, b.name);
        assert_eq!(a.created, b.created);
        assert_eq!(a.modified, b.modified);
        assert_eq!(a.size, b.size);
        assert_eq!(a.sha1, b.sha1);
        assert_eq!(a.namelen, b.namelen);
    }
}

#[test]
fn parse_cache_reads_no_entry_for_negative_count() {
    let cache = vec![entry("a", 1, 1)];
    let bytes = serialize_cache(&cache, -1);
    assert_eq!(parse_cache(&bytes).unwrap().len(), 0);
}

#[test]
fn parse_cache_rejects_changed_byte() {
    let cache = vec![entry("a", 1, 1)];
    let mut bytes = serialize_cache(&cache, 1);
    let last = bytes.len() - 1;
    bytes[last] ^= 1;
    assert_eq!(parse_cache(&bytes).err(), Some(CacheError::HeaderMismatch));
    assert_eq!(verify_header(&bytes, 12), Err(CacheError::HeaderMismatch));
}

#[test]
fn parse_cache_reports_truncated_files() {
    assert_eq!(parse_cache(&[0u8; 31]).err(), Some(CacheError::Truncated));
    // the header counts two entries but holds one
    let cache = vec![entry("a", 1, 1)];
    let bytes = serialize_cache(&cache, 2);
    assert_eq!(parse_cache(&bytes).err(), Some(CacheError::Truncated));
}

#[test]
fn parse_cache_rejects_invalid_name() {
    let cache = vec![entry("ab", 1, 1)];
    let mut bytes = serialize_cache(&cache, 1);
    let n = bytes.len();
    bytes[n - 1] = 0xff;
    let mut hashed = bytes[..12].to_vec();
    hashed.extend_from_slice(&bytes[32..]);
    let sum: [u8; 20] = sha1::Sha1::digest(&hashed).into();
    bytes[12..32].copy_from_slice(&sum);
    assert!(verify_header(&bytes, 12).is_ok());
    assert_eq!(parse_cache(&bytes).err(), Some(CacheError::InvalidName));
}

// ---- objects ----

#[test]
fn blob_content_frames_the_file() {
    assert_eq!(blob_content(3, b"abc"), b"blob 3\0abc");
    assert_eq!(blob_content(0, b""), b"");
    assert_eq!(blob_content(0, b"ignored"), b"");
}

#[test]
fn compress_object_names_by_digest_of_compressed_bytes() {
    let content = blob_content(11, b"hello world");
    let (compressed, name) = compress_object(&content);
    assert_ne!(compressed, content);
    let expected: [u8; 20] = sha1::Sha1::digest(&compressed).into();
    assert_eq!(name, expected);
}

#[test]
fn stored_blob_reads_back() {
    let data = b"line one\nline two\n";
    let content = blob_content(data.len(), data);
    let (compressed, _) = compress_object(&content);
    assert_eq!(decode_sha1_file(&compressed).unwrap(), data.to_vec());
    assert_eq!(decode_sha1_file_text(&compressed).unwrap(), "line one\nline two\n");
    assert_eq!(decode_sha1_file_of_kind(&compressed, "blob").unwrap(), data.to_vec());
    assert_eq!(decode_sha1_file_of_kind(&compressed, "tree"), Err(ObjectError::WrongKind));
}

#[test]
fn stored_empty_blob_reads_back_empty() {
    let (compressed, _) = compress_object(&blob_content(0, b""));
    assert_eq!(decode_sha1_file(&compressed).unwrap(), Vec::<u8>::new());
    assert_eq!(decode_sha1_file_text(&compressed).unwrap(), "");
}

#[test]
fn decode_rejects_garbage_and_binary_text() {
    assert_eq!(decode_sha1_file(b"not zlib at all"), Err(ObjectError::Decompress));
    assert_eq!(decode_sha1_file_text(b""), Err(ObjectError::Decompress));
    let content = blob_content(2, &[0xff, 0xfe]);
    let (compressed, _) = compress_object(&content);
    assert_eq!(decode_sha1_file_text(&compressed), Err(ObjectError::NotText));
}

#[test]
fn tree_object_layout() {
    let cache = vec![entry("a", 5, 1), entry("bc", 12, 2)];
    let tree = build_tree_object(&cache);
    let mut body = Vec::new();
    body.extend_from_slice(b"5 a\0");
    body.extend_from_slice(&digest(1));
    body.extend_from_slice(b"12 bc\0");
    body.extend_from_slice(&digest(2));
    let mut expected = format!("tree {}\0", body.len() + 1).into_bytes();
    expected.extend_from_slice(&body);
    assert_eq!(tree, expected);
    assert_eq!(build_tree_object(&[]), b"tree 1\0");
}

#[test]
fn tree_listing_roundtrip() {
    let cache = vec![entry("a", 5, 1), entry("dir/b", 0, 2)];
    let tree = build_tree_object(&cache);
    let (compressed, _) = compress_object(&tree);
    let body = decode_sha1_file_of_kind(&compressed, "tree").unwrap();
    let (entries, truncated) = list_tree_entries(&body);
    assert!(!truncated);
    assert_eq!(entries.len(), 2);
    assert_eq!(entries[0].0, b"5 a\0");
    assert_eq!(entries[0].1, digest(1));
    assert_eq!(entries[1].0, b"0 dir/b\0");
    assert_eq!(entries[1].1, digest(2));
}

#[test]
fn tree_listing_reports_short_digest() {
    let mut body = b"1 a\0".to_vec();
    body.extend_from_slice(&digest(1));
    body.extend_from_slice(b"2 b\0short");
    let (entries, truncated) = list_tree_entries(&body);
    assert!(truncated);
    assert_eq!(entries.len(), 1);
    let (entries, truncated) = list_tree_entries(b"");
    assert!(!truncated);
    assert!(entries.is_empty());
}

// ---- commits ----

fn args(list: &[&str]) -> Vec<String> {
    list.iter().map(|s| s.to_string()).collect()
}

#[test]
fn parse_commit_args_reads_flags() {
    let tree = "aa".repeat(20);
    let p1 = "bb".repeat(20);
    let p2 = "cc".repeat(20);
    let a = parse_commit_args(&args(&["depot", "commit-tree", &tree, "-p", &p1, "-m", "first", "-p", &p2, "-m", "second"])).unwrap();
    assert_eq!(a.tree, tree);
    assert_eq!(a.parents, vec![p1, p2]);
    assert_eq!(a.comment, "second");
    let a = parse_commit_args(&args(&["depot", "commit-tree", &tree])).unwrap();
    assert!(a.parents.is_empty());
    assert_eq!(a.comment, "Empty comment");
}

#[test]
fn parse_commit_args_errors() {
    let tree = "aa".repeat(20);
    let bad = format!("zz{}", "00".repeat(19));
    assert_eq!(parse_commit_args(&args(&["depot", "commit-tree"])).err(), Some(CommitArgsError::MissingTree));
    assert_eq!(parse_commit_args(&args(&["depot", "commit-tree", "ab"])).err(), Some(CommitArgsError::TreeOutOfBounds));
    assert_eq!(parse_commit_args(&args(&["depot", "commit-tree", &bad])).err(), Some(CommitArgsError::BadTree));
    assert_eq!(parse_commit_args(&args(&["depot", "commit-tree", &tree, "-p"])).err(), Some(CommitArgsError::MissingParent));
    assert_eq!(parse_commit_args(&args(&["depot", "commit-tree", &tree, "-p", "12"])).err(), Some(CommitArgsError::ParentOutOfBounds));
    assert_eq!(parse_commit_args(&args(&["depot", "commit-tree", &tree, "-p", &bad])).err(), Some(CommitArgsError::BadParent));
    assert_eq!(parse_commit_args(&args(&["depot", "commit-tree", &tree, "-m"])).err(), Some(CommitArgsError::MissingComment));
    assert_eq!(parse_commit_args(&args(&["depot", "commit-tree", &tree, "-x"])).err(), Some(CommitArgsError::UnknownFlag));
}

#[test]
fn commit_object_layout() {
    let tree = "ab".repeat(20);
    let parents = vec!["cd".repeat(20)];
    let obj = build_commit_object(&tree, &parents, "msg");
    let body = format!(
        "tree: {:?}\nparent: {:?}\nauthor: depot@localhost Depot User\ncommiter: depot@localhost Depot User\n\nmsg",
        tree, parents[0]
    );
    let mut expected = format!("commit {}\0", body.len() + 1).into_bytes();
    expected.extend_from_slice(body.as_bytes());
    assert_eq!(obj, expected);
}

#[test]
fn commit_object_quotes_names() {
    let obj = build_commit_object("a\"b", &[], "");
    let text = String::from_utf8_lossy(&obj).into_owned();
    assert!(text.contains("tree: \"a\\\"b\"\n"));
    let (compressed, _) = compress_object(&obj);
    let body = decode_sha1_file_of_kind(&compressed, "commit").unwrap();
    assert!(body.starts_with(b"tree: \"a\\\"b\"\n"));
}

// ---- differences ----

#[test]
fn diff_metadata_flags() {
    let e = entry("f", 10, 1);
    assert_eq!(diff_metadata(&e, e.created, e.modified, e.size), 0);
    assert_eq!(diff_metadata(&e, e.created + 1, e.modified, e.size), CREATED);
    assert_eq!(diff_metadata(&e, e.created, e.modified + 1, e.size), MODIFIED);
    assert_eq!(diff_metadata(&e, e.created, e.modified, 11), SIZE);
    assert_eq!(diff_metadata(&e, 0, 0, 0), CREATED | MODIFIED | SIZE);
}

#[test]
fn render_diff_is_unified() {
    assert_eq!(render_diff("a\nb\n", "a\nc\n"), "@@ -1,2 +1,2 @@\n a\n-b\n+c\n");
    assert_eq!(render_diff("same\n", "same\n"), "");
}
