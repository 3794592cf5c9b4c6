//! The record codec.
//!
//! Directory files and the cache index are concatenations of three kinds
//! of fields: variable-length unsigned integers (seven value bits per
//! byte, least significant group first, high bit set on every byte but
//! the last), strings (the byte length as such an integer, then the
//! UTF-8 bytes), and booleans (one byte, zero or one).  The encoding is
//! self-delimiting: a decoder consumes a prefix of the input and reports
//! how many bytes it took, so a directory file is scanned entry by entry
//! from the front.
//!
//! Specification-level encoders and decoders define the format; the
//! executable functions are proved to match them, and round-trip and
//! prefix-stability lemmas make the format usable in contracts.

use vstd::prelude::*;
use vstd::utf8::{
    valid_utf8, decode_utf8, encode_utf8, encode_utf8_valid_utf8, encode_utf8_decode_utf8,
};

use crate::messages::{LocV, EntryV, DirectoryEntry, Location, Node};

verus! {

/// The least value whose variable-length encoding no longer fits in 64 bits
/// after one more seven-bit group, namely 2^57.
pub const UINT_LIMIT: u64 = 0x200_0000_0000_0000;

// ---------------------------------------------------------------------------
// Unsigned integers
// ---------------------------------------------------------------------------

/// The encoding of an unsigned integer: seven value bits per byte, least
/// significant group first; the high bit marks a continuation.
pub open spec fn enc_uint(n: nat) -> Seq<u8>
    decreases n,
{
    if n < 128 {
        seq![n as u8]
    } else {
        seq![(n % 128 + 128) as u8] + enc_uint(n / 128)
    }
}

/// Decode an unsigned integer from a prefix of `b`: the value and the
/// number of bytes consumed, or `None` when `b` ends inside the integer.
pub open spec fn dec_uint(b: Seq<u8>) -> Option<(nat, int)>
    decreases b.len(),
{
    if b.len() == 0 {
        None
    } else if b[0] < 128 {
        Some((b[0] as nat, 1))
    } else {
        match dec_uint(b.skip(1)) {
            Some((v, k)) => Some((((b[0] - 128) + 128 * v) as nat, k + 1)),
            None => None,
        }
    }
}

/// A decoded integer took at least one byte and no more than the input.
pub proof fn lemma_dec_uint_bounds(b: Seq<u8>)
    ensures
        dec_uint(b) matches Some((v, k)) ==> 1 <= k <= b.len(),
    decreases b.len(),
{
    if b.len() > 0 && b[0] >= 128 {
        lemma_dec_uint_bounds(b.skip(1));
    }
}

/// Decoding looks only at the bytes it consumes: appending more input
/// changes nothing once a value has been decoded.
pub proof fn lemma_dec_uint_extend(b: Seq<u8>, ext: Seq<u8>)
    requires
        dec_uint(b) is Some,
    ensures
        dec_uint(b + ext) == dec_uint(b),
    decreases b.len(),
{
    assert((b + ext).len() > 0);
    assert((b + ext)[0] == b[0]);
    if b[0] >= 128 {
        assert((b + ext).skip(1) =~= b.skip(1) + ext);
        lemma_dec_uint_extend(b.skip(1), ext);
    }
}

/// Decoding inverts encoding, whatever follows the encoded bytes.
pub proof fn lemma_uint_round_trip(n: nat, rest: Seq<u8>)
    ensures
        dec_uint(enc_uint(n) + rest) == Some((n, enc_uint(n).len() as int)),
        enc_uint(n).len() >= 1,
    decreases n,
{
    if n < 128 {
        assert((enc_uint(n) + rest)[0] == n as u8);
        assert(dec_uint(enc_uint(n) + rest) == Some((n, 1int)));
    } else {
        let b0 = (n % 128 + 128) as u8;
        assert((enc_uint(n) + rest)[0] == b0);
        assert((enc_uint(n) + rest).skip(1) =~= enc_uint(n / 128) + rest);
        lemma_uint_round_trip(n / 128, rest);
        assert((b0 - 128) + 128 * (n / 128) == n) by {
            assert(n % 128 + 128 * (n / 128) == n) by (nonlinear_arith);
        };
    }
}

/// Append the encoding of `n` to `out`.
pub fn encode_uint(n: u64, out: &mut Vec<u8>)
    ensures
        final(out)@ == old(out)@ + enc_uint(n as nat),
    decreases n,
{
    if n < 128 {
        out.push(n as u8);
        assert(out@ =~= old(out)@ + enc_uint(n as nat));
    } else {
        let ghost prefix = out@;
        out.push((n % 128 + 128) as u8);
        encode_uint(n / 128, out);
        assert(out@ =~= prefix + enc_uint(n as nat));
    }
}

/// Decode an unsigned integer starting at `pos`.  Returns the value and
/// the number of bytes consumed; `None` when the input ends inside the
/// integer or the value does not fit in 64 bits.
pub fn decode_uint(b: &Vec<u8>, pos: usize) -> (r: Option<(u64, usize)>)
    requires
        pos <= b.len(),
    ensures
        match dec_uint(b@.skip(pos as int)) {
            Some((v, k)) => if v <= u64::MAX {
                r == Some((v as u64, k as usize))
            } else {
                r is None
            },
            None => r is None,
        },
    decreases b.len() - pos,
{
    proof {
        lemma_dec_uint_bounds(b@.skip(pos as int));
    }
    if pos == b.len() {
        return None;
    }
    let b0 = b[pos];
    if b0 < 128 {
        Some((b0 as u64, 1))
    } else {
        assert(b@.skip(pos as int).skip(1) =~= b@.skip(pos as int + 1));
        match decode_uint(b, pos + 1) {
            None => None,
            Some((v, k)) => {
                let low = (b0 - 128) as u64;
                if v >= UINT_LIMIT {
                    None
                } else {
                    Some((low + v * 128, k + 1))
                }
            },
        }
    }
}

// ---------------------------------------------------------------------------
// Strings
// ---------------------------------------------------------------------------

/// The encoding of a string: the UTF-8 byte length as an integer, then the
/// UTF-8 bytes themselves.
pub open spec fn enc_str(s: Seq<char>) -> Seq<u8> {
    enc_uint(encode_utf8(s).len()) + encode_utf8(s)
}

/// Decode a string from a prefix of `b`.
pub open spec fn dec_str(b: Seq<u8>) -> Option<(Seq<char>, int)> {
    match dec_uint(b) {
        Some((len, k)) => if k + len <= b.len() && valid_utf8(b.subrange(k, k + len)) {
            Some((decode_utf8(b.subrange(k, k + len)), k + len))
        } else {
            None
        },
        None => None,
    }
}

/// A decoded string took at least one byte and no more than the input.
pub proof fn lemma_dec_str_bounds(b: Seq<u8>)
    ensures
        dec_str(b) matches Some((s, k)) ==> 1 <= k <= b.len(),
{
    lemma_dec_uint_bounds(b);
}

/// Appending input after a decoded string changes nothing.
pub proof fn lemma_dec_str_extend(b: Seq<u8>, ext: Seq<u8>)
    requires
        dec_str(b) is Some,
    ensures
        dec_str(b + ext) == dec_str(b),
{
    lemma_dec_uint_bounds(b);
    lemma_dec_uint_extend(b, ext);
    let (len, k) = dec_uint(b)->Some_0;
    assert((b + ext).subrange(k, k + len) =~= b.subrange(k, k + len));
}

/// Decoding inverts encoding, whatever follows the encoded bytes.
pub proof fn lemma_str_round_trip(s: Seq<char>, rest: Seq<u8>)
    ensures
        dec_str(enc_str(s) + rest) == Some((s, enc_str(s).len() as int)),
        enc_str(s).len() >= 1,
{
    let bytes = encode_utf8(s);
    let e = enc_uint(bytes.len());
    let total = enc_str(s) + rest;
    assert(total =~= e + (bytes + rest));
    lemma_uint_round_trip(bytes.len(), bytes + rest);
    let k = e.len() as int;
    assert(total.subrange(k, k + bytes.len()) =~= bytes);
    encode_utf8_valid_utf8(s);
    encode_utf8_decode_utf8(s);
}

/// Two strings are equal exactly when their UTF-8 bytes are equal.
pub proof fn lemma_str_bytes_eq(a: Seq<char>, b: Seq<char>)
    ensures
        (encode_utf8(a) == encode_utf8(b)) == (a == b),
{
    encode_utf8_decode_utf8(a);
    encode_utf8_decode_utf8(b);
}

/// Byte-exact string comparison.
pub fn str_eq(a: &str, b: &str) -> (r: bool)
    ensures
        r == (a@ == b@),
{
    proof {
        lemma_str_bytes_eq(a@, b@);
    }
    let ab = a.as_bytes();
    let bb = b.as_bytes();
    if ab.len() != bb.len() {
        assert(encode_utf8(a@) != encode_utf8(b@));
        return false;
    }
    let n = ab.len();
    let mut i: usize = 0;
    while i < n
        invariant
            n == ab.len() == bb.len(),
            i <= n,
            ab@ == encode_utf8(a@),
            bb@ == encode_utf8(b@),
            forall|j: int| 0 <= j < i ==> ab@[j] == bb@[j],
            a@ == b@ <==> ab@ == bb@,
        decreases n - i,
    {
        if ab[i] != bb[i] {
            assert(ab@ != bb@);
            return false;
        }
        i = i + 1;
    }
    assert(ab@ =~= bb@);
    true
}

/// Compare two owned strings byte-exactly.
pub fn string_eq(a: &String, b: &String) -> (r: bool)
    ensures
        r == (a@ == b@),
{
    str_eq(a.as_str(), b.as_str())
}

/// Relies on `String::from_utf8`: it succeeds exactly on well-formed UTF-8
/// input and the returned string holds exactly the given bytes.
#[verifier::external_body]
fn bytes_to_string(v: Vec<u8>) -> (r: Option<String>)
    ensures
        r matches Some(s) ==> encode_utf8(s@) == v@,
        (r is Some) == valid_utf8(v@),
{
    match String::from_utf8(v) {
        Ok(s) => Some(s),
        Err(_) => None,
    }
}

/// Append the bytes of the slice to `out`.
pub fn append_bytes(out: &mut Vec<u8>, b: &[u8])
    ensures
        final(out)@ == old(out)@ + b@,
{
    let n = b.len();
    let mut i: usize = 0;
    while i < n
        invariant
            n == b.len(),
            i <= n,
            out@ == old(out)@ + b@.subrange(0, i as int),
        decreases n - i,
    {
        out.push(b[i]);
        assert(out@ =~= old(out)@ + b@.subrange(0, i + 1));
        i = i + 1;
    }
    assert(out@ =~= old(out)@ + b@);
}

/// Copy `b[start..end]` into a fresh vector.
pub fn take_range(b: &Vec<u8>, start: usize, end: usize) -> (r: Vec<u8>)
    requires
        start <= end <= b.len(),
    ensures
        r@ == b@.subrange(start as int, end as int),
{
    let mut r: Vec<u8> = Vec::new();
    let mut i: usize = start;
    while i < end
        invariant
            start <= i <= end <= b.len(),
            r@ == b@.subrange(start as int, i as int),
        decreases end - i,
    {
        r.push(b[i]);
        assert(r@ =~= b@.subrange(start as int, i + 1));
        i = i + 1;
    }
    r
}

/// Append the encoding of the string to `out`.
pub fn encode_str(s: &str, out: &mut Vec<u8>)
    ensures
        final(out)@ == old(out)@ + enc_str(s@),
{
    let bs = s.as_bytes();
    let n = bs.len();
    encode_uint(n as u64, out);
    append_bytes(out, bs);
    assert(out@ =~= old(out)@ + enc_str(s@));
}

/// Decode a string starting at `pos`: the string and the bytes consumed.
pub fn decode_str(b: &Vec<u8>, pos: usize) -> (r: Option<(String, usize)>)
    requires
        pos <= b.len(),
    ensures
        match dec_str(b@.skip(pos as int)) {
            Some((s, k)) => r matches Some(p) && p.0@ == s && p.1 == k,
            None => r is None,
        },
{
    let ghost input = b@.skip(pos as int);
    proof {
        lemma_dec_uint_bounds(input);
    }
    match decode_uint(b, pos) {
        None => {
            proof {
                match dec_uint(input) {
                    Some((v, k)) => {
                        assert(v > u64::MAX);
                        assert(k + v > input.len());
                    },
                    None => {},
                }
            }
            None
        },
        Some((len, k)) => {
            let avail = b.len() - pos - k;
            if len > avail as u64 {
                assert(dec_str(input) is None);
                None
            } else {
                let start = pos + k;
                let end = start + (len as usize);
                let bytes = take_range(b, start, end);
                assert(bytes@ =~= input.subrange(k as int, k + len));
                match bytes_to_string(bytes) {
                    None => {
                        assert(dec_str(input) is None);
                        None
                    },
                    Some(s) => {
                        proof {
                            encode_utf8_decode_utf8(s@);
                        }
                        Some((s, k + len as usize))
                    },
                }
            }
        },
    }
}

// ---------------------------------------------------------------------------
// Booleans
// ---------------------------------------------------------------------------

/// The encoding of a boolean: one byte, one or zero.
pub open spec fn enc_bool(v: bool) -> Seq<u8> {
    seq![if v { 1u8 } else { 0u8 }]
}

/// Decode a boolean from a prefix of `b`.
pub open spec fn dec_bool(b: Seq<u8>) -> Option<(bool, int)> {
    if b.len() == 0 {
        None
    } else if b[0] == 0 {
        Some((false, 1))
    } else if b[0] == 1 {
        Some((true, 1))
    } else {
        None
    }
}

/// Decoding inverts encoding, whatever follows the encoded byte.
pub proof fn lemma_bool_round_trip(v: bool, rest: Seq<u8>)
    ensures
        dec_bool(enc_bool(v) + rest) == Some((v, 1int)),
{
    assert((enc_bool(v) + rest)[0] == if v { 1u8 } else { 0u8 });
}

/// Append the encoding of the boolean to `out`.
pub fn encode_bool(v: bool, out: &mut Vec<u8>)
    ensures
        final(out)@ == old(out)@ + enc_bool(v),
{
    out.push(if v { 1u8 } else { 0u8 });
    assert(out@ =~= old(out)@ + enc_bool(v));
}

/// Decode a boolean starting at `pos`.
pub fn decode_bool(b: &Vec<u8>, pos: usize) -> (r: Option<(bool, usize)>)
    requires
        pos <= b.len(),
    ensures
        match dec_bool(b@.skip(pos as int)) {
            Some((v, k)) => r == Some((v, k as usize)),
            None => r is None,
        },
{
    if pos == b.len() {
        None
    } else {
        let b0 = b[pos];
        if b0 == 0 {
            Some((false, 1))
        } else if b0 == 1 {
            Some((true, 1))
        } else {
            None
        }
    }
}


// ---------------------------------------------------------------------------
// Directory entries
// ---------------------------------------------------------------------------

/// The encoding of a directory entry: owning node name, URI, entry name,
/// directory flag, in that order.
pub open spec fn enc_entry(e: EntryV) -> Seq<u8> {
    enc_str(e.loc.node) + enc_str(e.loc.uri) + enc_str(e.name) + enc_bool(e.is_dir)
}

/// Decode a directory entry from a prefix of `b`.
pub open spec fn dec_entry(b: Seq<u8>) -> Option<(EntryV, int)> {
    match dec_str(b) {
        None => None,
        Some((node, k1)) => match dec_str(b.skip(k1)) {
            None => None,
            Some((uri, k2)) => match dec_str(b.skip(k1 + k2)) {
                None => None,
                Some((name, k3)) => match dec_bool(b.skip(k1 + k2 + k3)) {
                    None => None,
                    Some((d, k4)) => Some(
                        (EntryV { loc: LocV { node, uri }, name, is_dir: d }, k1 + k2 + k3 + k4),
                    ),
                },
            },
        },
    }
}

/// A decoded entry took at least one byte and no more than the input.
pub proof fn lemma_dec_entry_bounds(b: Seq<u8>)
    ensures
        dec_entry(b) matches Some((e, k)) ==> 1 <= k <= b.len(),
{
    if dec_entry(b) is Some {
        lemma_dec_str_bounds(b);
        let (node, k1) = dec_str(b)->Some_0;
        lemma_dec_str_bounds(b.skip(k1));
        let (uri, k2) = dec_str(b.skip(k1))->Some_0;
        lemma_dec_str_bounds(b.skip(k1 + k2));
        let (name, k3) = dec_str(b.skip(k1 + k2))->Some_0;
        assert(b.skip(k1 + k2 + k3).len() == b.len() - k1 - k2 - k3);
    }
}

/// Appending input after a decoded entry changes nothing.
pub proof fn lemma_dec_entry_extend(b: Seq<u8>, ext: Seq<u8>)
    requires
        dec_entry(b) is Some,
    ensures
        dec_entry(b + ext) == dec_entry(b),
{
    lemma_dec_str_bounds(b);
    lemma_dec_str_extend(b, ext);
    let (node, k1) = dec_str(b)->Some_0;
    assert((b + ext).skip(k1) =~= b.skip(k1) + ext);
    lemma_dec_str_bounds(b.skip(k1));
    lemma_dec_str_extend(b.skip(k1), ext);
    let (uri, k2) = dec_str(b.skip(k1))->Some_0;
    assert((b + ext).skip(k1 + k2) =~= b.skip(k1 + k2) + ext);
    lemma_dec_str_bounds(b.skip(k1 + k2));
    lemma_dec_str_extend(b.skip(k1 + k2), ext);
    let (name, k3) = dec_str(b.skip(k1 + k2))->Some_0;
    assert((b + ext).skip(k1 + k2 + k3) =~= b.skip(k1 + k2 + k3) + ext);
    let tail = b.skip(k1 + k2 + k3);
    if dec_bool(tail) is Some {
        assert((tail + ext)[0] == tail[0]);
    }
}

/// Decoding inverts encoding, whatever follows the encoded bytes.
pub proof fn lemma_entry_round_trip(e: EntryV, rest: Seq<u8>)
    ensures
        dec_entry(enc_entry(e) + rest) == Some((e, enc_entry(e).len() as int)),
        enc_entry(e).len() >= 4,
{
    let a = enc_str(e.loc.node);
    let b = enc_str(e.loc.uri);
    let c = enc_str(e.name);
    let d = enc_bool(e.is_dir);
    let total = enc_entry(e) + rest;
    assert(total =~= a + (b + (c + (d + rest))));
    lemma_str_round_trip(e.loc.node, b + (c + (d + rest)));
    assert(total.skip(a.len() as int) =~= b + (c + (d + rest)));
    lemma_str_round_trip(e.loc.uri, c + (d + rest));
    assert(total.skip(a.len() + b.len() as int) =~= c + (d + rest));
    lemma_str_round_trip(e.name, d + rest);
    assert(total.skip(a.len() + b.len() + c.len() as int) =~= d + rest);
    lemma_bool_round_trip(e.is_dir, rest);
}

/// Append the encoding of the entry to `out`.
pub fn encode_entry(e: &DirectoryEntry, out: &mut Vec<u8>)
    ensures
        final(out)@ == old(out)@ + enc_entry(e@),
{
    encode_str(e.location.node.name.as_str(), out);
    encode_str(e.location.uri.as_str(), out);
    encode_str(e.name.as_str(), out);
    encode_bool(e.is_dir, out);
    assert(out@ =~= old(out)@ + enc_entry(e@));
}

/// Decode a directory entry starting at `pos`: the entry and the bytes
/// consumed.
pub fn decode_entry(b: &Vec<u8>, pos: usize) -> (r: Option<(DirectoryEntry, usize)>)
    requires
        pos <= b.len(),
    ensures
        match dec_entry(b@.skip(pos as int)) {
            Some((ev, k)) => r matches Some(p) && p.0@ == ev && p.1 == k && pos + k <= b.len(),
            None => r is None,
        },
{
    let ghost input = b@.skip(pos as int);
    proof {
        lemma_dec_entry_bounds(input);
        lemma_dec_str_bounds(input);
    }
    let (node_name, k1) = match decode_str(b, pos) {
        None => {
            return None;
        },
        Some(p) => p,
    };
    assert(b@.skip(pos + k1 as int) =~= input.skip(k1 as int));
    proof {
        lemma_dec_str_bounds(input.skip(k1 as int));
    }
    let (uri, k2) = match decode_str(b, pos + k1) {
        None => {
            return None;
        },
        Some(p) => p,
    };
    assert(b@.skip(pos + k1 + k2 as int) =~= input.skip(k1 + k2 as int));
    proof {
        lemma_dec_str_bounds(input.skip(k1 + k2 as int));
    }
    let (name, k3) = match decode_str(b, pos + k1 + k2) {
        None => {
            return None;
        },
        Some(p) => p,
    };
    assert(b@.skip(pos + k1 + k2 + k3 as int) =~= input.skip(k1 + k2 + k3 as int));
    let (is_dir, k4) = match decode_bool(b, pos + k1 + k2 + k3) {
        None => {
            return None;
        },
        Some(p) => p,
    };
    let entry = DirectoryEntry {
        location: Location { node: Node { name: node_name }, uri },
        name,
        is_dir,
    };
    Some((entry, k1 + k2 + k3 + k4))
}

// ---------------------------------------------------------------------------
// Directory files
// ---------------------------------------------------------------------------

/// The entries of a directory file, decoded one after another from the
/// start; the scan stops at the first undecodable suffix.
pub open spec fn dir_seq(b: Seq<u8>) -> Seq<EntryV>
    decreases b.len(),
{
    match dec_entry(b) {
        None => seq![],
        Some((e, k)) => if 1 <= k <= b.len() {
            seq![e] + dir_seq(b.skip(k))
        } else {
            seq![e]
        },
    }
}

/// The first entry of the directory file carrying the given name.
pub open spec fn find_in_dir(b: Seq<u8>, name: Seq<char>) -> Option<EntryV>
    decreases b.len(),
{
    match dec_entry(b) {
        None => None,
        Some((e, k)) => if e.name == name {
            Some(e)
        } else if 1 <= k <= b.len() {
            find_in_dir(b.skip(k), name)
        } else {
            None
        },
    }
}

/// A well-formed directory file: a concatenation of encoded entries,
/// nothing else.
pub open spec fn wf_dir(b: Seq<u8>) -> bool
    decreases b.len(),
{
    b.len() == 0 || (match dec_entry(b) {
        None => false,
        Some((e, k)) => 1 <= k <= b.len() && wf_dir(b.skip(k)),
    })
}

/// A name is present in a directory exactly when some decoded entry
/// carries it.
pub open spec fn dir_has_name(b: Seq<u8>, name: Seq<char>) -> bool {
    exists|i: int| 0 <= i < dir_seq(b).len() && dir_seq(b)[i].name == name
}

/// The search result is the first entry with the name: it is `Some`
/// exactly when the name is present, and what it returns is one of the
/// directory's entries, carrying that name.
pub proof fn lemma_find_in_dir_seq(b: Seq<u8>, name: Seq<char>)
    ensures
        (find_in_dir(b, name) is Some) == dir_has_name(b, name),
        find_in_dir(b, name) matches Some(e) ==> e.name == name && dir_seq(b).contains(e),
    decreases b.len(),
{
    match dec_entry(b) {
        None => {
            assert(dir_seq(b).len() == 0);
        },
        Some((e, k)) => {
            if e.name == name {
                assert(dir_seq(b)[0] == e);
                assert(dir_seq(b).contains(e));
            } else if 1 <= k <= b.len() {
                lemma_find_in_dir_seq(b.skip(k), name);
                let sub = dir_seq(b.skip(k));
                assert(forall|i: int| 0 <= i < sub.len() ==> dir_seq(b)[i + 1] == sub[i]);
                if dir_has_name(b, name) {
                    let i = choose|i: int|
                        0 <= i < dir_seq(b).len() && dir_seq(b)[i].name == name;
                    assert(i != 0);
                    assert(sub[i - 1].name == name);
                    assert(dir_has_name(b.skip(k), name));
                }
                match find_in_dir(b.skip(k), name) {
                    Some(f) => {
                        let i = choose|i: int| 0 <= i < sub.len() && sub[i] == f;
                        assert(dir_seq(b)[i + 1] == f);
                        assert(dir_seq(b).contains(f));
                    },
                    None => {},
                }
            } else {
                assert(dir_seq(b) =~= seq![e]);
            }
        },
    }
}

/// Appending one encoded entry to a well-formed directory file keeps it
/// well formed, adds the entry at the end of the scan, and changes no
/// search result except for the new entry's own name when it was absent.
pub proof fn lemma_dir_append(b: Seq<u8>, ev: EntryV)
    requires
        wf_dir(b),
    ensures
        wf_dir(b + enc_entry(ev)),
        dir_seq(b + enc_entry(ev)) == dir_seq(b).push(ev),
        forall|n: Seq<char>| #![auto]
            find_in_dir(b + enc_entry(ev), n) == (if find_in_dir(b, n) is Some {
                find_in_dir(b, n)
            } else if ev.name == n {
                Some(ev)
            } else {
                None::<EntryV>
            }),
    decreases b.len(),
{
    let x = enc_entry(ev);
    if b.len() == 0 {
        assert(b + x =~= x + Seq::<u8>::empty());
        lemma_entry_round_trip(ev, Seq::<u8>::empty());
        let k = x.len() as int;
        assert(dec_entry(b + x) == Some((ev, k)));
        assert((b + x).skip(k) =~= Seq::<u8>::empty());
        assert(dir_seq(Seq::<u8>::empty()) =~= Seq::<EntryV>::empty());
        assert(wf_dir(Seq::<u8>::empty()));
        assert(dir_seq(b + x) =~= seq![ev]);
        assert(dir_seq(b) =~= Seq::<EntryV>::empty());
        assert(dir_seq(b + x) =~= dir_seq(b).push(ev));
        assert forall|n: Seq<char>| #![auto]
            find_in_dir(b + x, n) == (if find_in_dir(b, n) is Some {
                find_in_dir(b, n)
            } else if ev.name == n {
                Some(ev)
            } else {
                None::<EntryV>
            }) by {
            assert(find_in_dir(b, n) is None);
            if ev.name != n {
                assert(find_in_dir((b + x).skip(k), n) is None);
            }
        }
    } else {
        let (e0, k) = dec_entry(b)->Some_0;
        lemma_dec_entry_extend(b, x);
        assert((b + x).skip(k) =~= b.skip(k) + x);
        lemma_dir_append(b.skip(k), ev);
        assert(dir_seq(b + x) =~= seq![e0] + dir_seq(b.skip(k) + x));
        assert(seq![e0] + dir_seq(b.skip(k)).push(ev) =~= (seq![e0] + dir_seq(b.skip(k))).push(
            ev,
        ));
        assert(dir_seq(b + x) =~= dir_seq(b).push(ev));
        assert forall|n: Seq<char>| #![auto]
            find_in_dir(b + x, n) == (if find_in_dir(b, n) is Some {
                find_in_dir(b, n)
            } else if ev.name == n {
                Some(ev)
            } else {
                None::<EntryV>
            }) by {
            if e0.name == n {
                assert(find_in_dir(b + x, n) == Some(e0));
                assert(find_in_dir(b, n) == Some(e0));
            } else {
                assert(find_in_dir(b + x, n) == find_in_dir(b.skip(k) + x, n));
                assert(find_in_dir(b, n) == find_in_dir(b.skip(k), n));
            }
        }
    }
}

/// Search the directory bytes for the first entry with the given name,
/// starting at `pos`.
fn search_dir_at(b: &Vec<u8>, pos: usize, name: &str) -> (r: Option<DirectoryEntry>)
    requires
        pos <= b.len(),
    ensures
        match find_in_dir(b@.skip(pos as int), name@) {
            Some(ev) => r matches Some(e) && e@ == ev,
            None => r is None,
        },
    decreases b.len() - pos,
{
    let ghost input = b@.skip(pos as int);
    proof {
        lemma_dec_entry_bounds(input);
    }
    match decode_entry(b, pos) {
        None => None,
        Some((e, k)) => {
            if str_eq(e.name.as_str(), name) {
                Some(e)
            } else {
                assert(b@.skip(pos + k as int) =~= input.skip(k as int));
                search_dir_at(b, pos + k, name)
            }
        },
    }
}

/// Search a directory file for the first entry with the given name:
/// byte-exact name matching, insertion-order precedence.
pub fn search_dir_bytes(b: &Vec<u8>, name: &str) -> (r: Option<DirectoryEntry>)
    ensures
        match find_in_dir(b@, name@) {
            Some(ev) => r matches Some(e) && e@ == ev,
            None => r is None,
        },
        r matches Some(e) ==> e@.name == name@,
{
    assert(b@.skip(0) =~= b@);
    proof {
        lemma_find_in_dir_seq(b@, name@);
    }
    search_dir_at(b, 0, name)
}


} // verus!
