//! Content hashes: block ids, card ids and change detection use SHA-256
//! rendered as lower-case hex.

use sha2::{Digest, Sha256};
use vstd::prelude::*;
use vstd::utf8::encode_utf8;
use crate::text::{hex_lower, is_lower_hex, lemma_hex_lower_hex, push_hex, string_of};

verus! {

/// The SHA-256 digest of `data`, as computed by the `sha2` crate.
pub uninterp spec fn sha256_digest(data: Seq<u8>) -> Seq<u8>;

/// `sha2::Sha256::digest`: the 32-byte SHA-256 digest of `data`.
/// Trusted: the digest is named, not computed; its length is the output size of `Sha256`.
#[verifier::external_body]
fn sha256(data: &[u8]) -> (r: Vec<u8>)
    ensures
        r@ == sha256_digest(data@),
        r@.len() == 32,
{
    Sha256::digest(data).to_vec()
}

/// Hex of the first four digest bytes of the UTF-8 encoding of `s`.
pub open spec fn short_hash_of(s: Seq<char>) -> Seq<char> {
    hex_lower(sha256_digest(encode_utf8(s)).take(4))
}

/// Hex of the whole digest of the UTF-8 encoding of `s`.
pub open spec fn sha256_hex_of(s: Seq<char>) -> Seq<char> {
    hex_lower(sha256_digest(encode_utf8(s)))
}

/// Appends the hex of the first `n` digest bytes of `s`.
fn push_digest_hex(out: &mut Vec<char>, s: &str, n: usize)
    requires
        n <= 32,
    ensures
        final(out)@ == old(out)@ + hex_lower(sha256_digest(encode_utf8(s@)).take(n as int)),
        sha256_digest(encode_utf8(s@)).len() == 32,
{
    let bytes = s.as_bytes();
    let d = sha256(bytes);
    push_hex(out, &d, n);
}

/// Short content hash: eight lower-case hex digits (the first four digest bytes).
pub fn short_hash(s: &str) -> (r: String)
    ensures
        r@ == short_hash_of(s@),
        r@.len() == 8,
        is_lower_hex(r@),
{
    let mut out: Vec<char> = Vec::new();
    push_digest_hex(&mut out, s, 4);
    proof {
        lemma_hex_lower_hex(sha256_digest(encode_utf8(s@)).take(4));
        assert(out@ =~= short_hash_of(s@));
    }
    string_of(&out)
}

/// Full SHA-256 content hash: 64 lower-case hex digits.
pub fn sha256_hex(s: &str) -> (r: String)
    ensures
        r@ == sha256_hex_of(s@),
        r@.len() == 64,
        is_lower_hex(r@),
{
    let mut out: Vec<char> = Vec::new();
    push_digest_hex(&mut out, s, 32);
    proof {
        let d = sha256_digest(encode_utf8(s@));
        assert(d.take(32) =~= d);
        lemma_hex_lower_hex(d);
        assert(out@ =~= sha256_hex_of(s@));
    }
    string_of(&out)
}

/// Lower-case hex of the first `n` bytes of the SHA-256 digest of the UTF-8
/// encoding of `s`.
pub fn digest_hex(s: &str, n: usize) -> (r: String)
    requires
        n <= 32,
    ensures
        r@ == hex_lower(sha256_digest(encode_utf8(s@)).take(n as int)),
        r@.len() == 2 * n,
        is_lower_hex(r@),
{
    let mut out: Vec<char> = Vec::new();
    push_digest_hex(&mut out, s, n);
    assert(out@ =~= hex_lower(sha256_digest(encode_utf8(s@)).take(n as int)));
    proof {
        lemma_hex_lower_hex(sha256_digest(encode_utf8(s@)).take(n as int));
    }
    string_of(&out)
}

} // verus!
