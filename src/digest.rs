//! Digests as lowercase hexadecimal text.
//!
//! A leaf digest hashes the UTF-8 bytes of the raw leaf. An inner node's
//! digest hashes the bytes of the left child's hex text followed by those of
//! the right child's hex text.

use sha2::{Digest, Sha256};
use vstd::prelude::*;
use vstd::utf8::encode_utf8;

verus! {

/// The 32 bytes that SHA-256 yields for the given input.
pub uninterp spec fn sha256_bytes(data: Seq<u8>) -> Seq<u8>;

/// The lowercase hexadecimal digit for a value below 16.
pub open spec fn hex_digit(n: u8) -> char {
    if n < 10 {
        ((n + 48) as u32) as char
    } else {
        ((n + 87) as u32) as char
    }
}

/// Each byte as two lowercase hex digits, high nibble first.
pub open spec fn hex_text(b: Seq<u8>) -> Seq<char>
    decreases b.len(),
{
    if b.len() == 0 {
        Seq::empty()
    } else {
        seq![hex_digit(b[0] / 16), hex_digit(b[0] % 16)] + hex_text(b.drop_first())
    }
}

/// The digest of a byte string, as hex text.
pub open spec fn digest_text(data: Seq<u8>) -> Seq<char> {
    hex_text(sha256_bytes(data))
}

/// The digest of a raw leaf.
pub open spec fn leaf_digest(leaf: Seq<char>) -> Seq<char> {
    digest_text(encode_utf8(leaf))
}

/// The digest of an inner node whose children have the given hex texts.
pub open spec fn node_digest(left: Seq<char>, right: Seq<char>) -> Seq<char> {
    digest_text(encode_utf8(left) + encode_utf8(right))
}

/// Relies on `Sha256::digest` for the 32-byte hash of `data`, and on the
/// `LowerHex` impl of `GenericArray` (generic-array) that writes every byte
/// as two lowercase hex digits, high nibble first.
#[verifier::external_body]
fn sha256_hex(data: &[u8]) -> (r: String)
    ensures
        r@ == hex_text(sha256_bytes(data@)),
        r@.len() == 64,
{
    format!("{:x}", Sha256::digest(data))
}

/// Hashes the UTF-8 bytes of a raw leaf.
pub fn hash_leaf(data: String) -> (r: String)
    ensures
        r@ == leaf_digest(data@),
{
    sha256_hex(data.as_str().as_bytes())
}

/// Hashes the hex texts of two children, left then right.
pub(crate) fn hash_pair(left: &String, right: &String) -> (r: String)
    ensures
        r@ == node_digest(left@, right@),
{
    let mut bytes: Vec<u8> = left.as_str().as_bytes_vec();
    let tail: &[u8] = right.as_str().as_bytes();
    let ghost head = bytes@;
    let mut i: usize = 0;
    while i < tail.len()
        invariant
            i <= tail@.len(),
            head == encode_utf8(left@),
            tail@ == encode_utf8(right@),
            bytes@ == head + tail@.subrange(0, i as int),
        decreases tail@.len() - i,
    {
        bytes.push(tail[i]);
        i = i + 1;
        assert(tail@.subrange(0, i as int) == tail@.subrange(0, i - 1) .push(tail@[i - 1]));
    }
    assert(tail@.subrange(0, i as int) == tail@);
    sha256_hex(bytes.as_slice())
}

} // verus!
