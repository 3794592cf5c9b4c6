//! The wire codec, exercised on concrete values, and cross-checked where
//! an outside implementation of the same field encoding exists.

use vpfs::codec::{
    encode_uint, decode_uint, encode_str, decode_str, encode_bool, decode_bool, encode_entry,
    decode_entry, search_dir_bytes, str_eq,
};
use vpfs::messages::{Node, Location, DirectoryEntry};
use vpfs::store::u64_to_hex;

fn entry(node: &str, uri: &str, name: &str, is_dir: bool) -> DirectoryEntry {
    DirectoryEntry {
        location: Location { node: Node { name: node.to_string() }, uri: uri.to_string() },
        name: name.to_string(),
        is_dir,
    }
}

#[test]
fn uint_encoding_matches_the_varint_format() {
    for x in [0u64, 1, 127, 128, 129, 300, 16384, 99999999, u64::MAX] {
        let mut ours: Vec<u8> = Vec::new();
        encode_uint(x, &mut ours);
        let reference = serde_bare::to_vec(&serde_bare::Uint(x)).unwrap();
        assert_eq!(ours, reference);
    }
}

#[test]
fn uint_round_trip() {
    for x in [0u64, 1, 127, 128, 255, 256, 1 << 20, u64::MAX] {
        let mut b: Vec<u8> = Vec::new();
        encode_uint(x, &mut b);
        let (v, k) = decode_uint(&b, 0).unwrap();
        assert_eq!(v, x);
        assert_eq!(k, b.len());
    }
}

#[test]
fn uint_decode_rejects_truncated_input() {
    let mut b: Vec<u8> = Vec::new();
    encode_uint(300, &mut b);
    b.pop();
    assert!(decode_uint(&b, 0).is_none());
}

#[test]
fn string_round_trip() {
    for s in ["", "a", "root", "Hello world", "p\u{e4}\u{e4}t\u{f6}s"] {
        let mut b: Vec<u8> = Vec::new();
        encode_str(s, &mut b);
        let (t, k) = decode_str(&b, 0).unwrap();
        assert_eq!(t, s.to_string());
        assert_eq!(k, b.len());
    }
}

#[test]
fn bool_round_trip_and_strictness() {
    let mut b: Vec<u8> = Vec::new();
    encode_bool(true, &mut b);
    encode_bool(false, &mut b);
    assert_eq!(b, vec![1u8, 0u8]);
    assert_eq!(decode_bool(&b, 0).unwrap(), (true, 1));
    assert_eq!(decode_bool(&b, 1).unwrap(), (false, 1));
    assert!(decode_bool(&vec![7u8], 0).is_none());
}

#[test]
fn entry_round_trip() {
    let e = entry("iroh", "deadbeef", "test0", false);
    let mut b: Vec<u8> = Vec::new();
    encode_entry(&e, &mut b);
    let (d, k) = decode_entry(&b, 0).unwrap();
    assert_eq!(k, b.len());
    assert_eq!(d, e);
}

#[test]
fn directory_search_finds_first_match_in_insertion_order() {
    let e1 = entry("iroh", "1111", "shared", false);
    let e2 = entry("local", "2222", "shared", true);
    let e3 = entry("local", "3333", "other", false);
    let mut b: Vec<u8> = Vec::new();
    encode_entry(&e1, &mut b);
    encode_entry(&e2, &mut b);
    encode_entry(&e3, &mut b);
    let hit = search_dir_bytes(&b, "shared").unwrap();
    assert_eq!(hit, e1);
    let other = search_dir_bytes(&b, "other").unwrap();
    assert_eq!(other, e3);
    assert!(search_dir_bytes(&b, "absent").is_none());
}

#[test]
fn directory_search_ignores_a_torn_tail() {
    let e1 = entry("iroh", "1111", "kept", false);
    let mut b: Vec<u8> = Vec::new();
    encode_entry(&e1, &mut b);
    let mut torn = b.clone();
    torn.push(0xff);
    assert_eq!(search_dir_bytes(&torn, "kept").unwrap(), e1);
}

#[test]
fn string_equality_is_byte_exact() {
    assert!(str_eq("abc", "abc"));
    assert!(!str_eq("abc", "abd"));
    assert!(!str_eq("abc", "ab"));
    assert!(str_eq("", ""));
}

#[test]
fn hex_rendering_matches_the_standard_one() {
    for x in [0u64, 1, 10, 15, 16, 255, 0xdeadbeef, u64::MAX] {
        assert_eq!(u64_to_hex(x), format!("{:x}", x));
    }
}
