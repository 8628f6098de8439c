//! Question fingerprints: the first 8 bytes of the SHA-256 digest of the
//! question's UTF-8 bytes, as 16 lowercase hex digits.

use sha2::{Digest, Sha256};
use vstd::prelude::*;

use crate::text::str_eq;
use vstd::utf8::encode_utf8;

verus! {

/// The SHA-256 digest of `data`.
pub uninterp spec fn sha256(data: Seq<u8>) -> Seq<u8>;

/// Calls `sha2::Sha256::digest` on `data`. Claimed: the result is
/// `sha256(data@)`, a function of the bytes alone, and has the 32 bytes of a
/// SHA-256 digest.
#[verifier::external_body]
fn sha256_digest(data: &[u8]) -> (r: Vec<u8>)
    ensures
        r@ == sha256(data@),
        r@.len() == 32,
{
    Sha256::digest(data).to_vec()
}

/// The lowercase hex digit for `n < 16`.
pub open spec fn hex_digit(n: int) -> char {
    if n < 10 {
        crate::text::digit_char(n as nat)
    } else if n == 10 {
        'a'
    } else if n == 11 {
        'b'
    } else if n == 12 {
        'c'
    } else if n == 13 {
        'd'
    } else if n == 14 {
        'e'
    } else {
        'f'
    }
}

/// Lowercase hex notation of `data`: two digits per byte, high half first.
pub open spec fn hex_lower(data: Seq<u8>) -> Seq<char>
    decreases data.len(),
{
    if data.len() == 0 {
        seq![]
    } else {
        seq![hex_digit((data[0] / 16) as int), hex_digit((data[0] % 16) as int)] + hex_lower(data.drop_first())
    }
}

/// Calls `hex::encode` on `data`, which writes each byte as two lowercase hex
/// digits, high half first (`HEX_CHARS_LOWER` in the crate's source).
#[verifier::external_body]
fn hex_encode(data: &[u8]) -> (r: String)
    ensures
        r@ == hex_lower(data@),
{
    hex::encode(data)
}

/// The fingerprint of a question.
pub open spec fn question_fingerprint(question: Seq<char>) -> Seq<char> {
    hex_lower(sha256(encode_utf8(question)).take(8))
}

/// The fingerprint of a digest: its first 8 bytes in lowercase hex.
pub fn digest_fingerprint(digest: &[u8]) -> (h: String)
    requires
        digest@.len() >= 8,
    ensures
        h@ == hex_lower(digest@.take(8)),
        h@.len() == 16,
{
    let mut head: Vec<u8> = Vec::new();
    let mut i: usize = 0;
    while i < 8
        invariant
            i <= 8,
            digest@.len() >= 8,
            head@ == digest@.take(i as int),
        decreases 8 - i,
    {
        head.push(digest[i]);
        i = i + 1;
        assert(head@ =~= digest@.take(i as int));
    }
    proof {
        lemma_hex_len(head@);
    }
    hex_encode(head.as_slice())
}

/// Fingerprints a question; equal questions always get equal fingerprints.
pub fn question_hash(question: &str) -> (h: String)
    ensures
        h@ == question_fingerprint(question@),
        h@.len() == 16,
{
    let digest = sha256_digest(question.as_bytes());
    digest_fingerprint(digest.as_slice())
}

/// Hex notation has two digits per byte.
pub proof fn lemma_hex_len(data: Seq<u8>)
    ensures
        hex_lower(data).len() == 2 * data.len(),
    decreases data.len(),
{
    if data.len() > 0 {
        lemma_hex_len(data.drop_first());
    }
}

/// Whether `expected` is the fingerprint of `question`.
pub open spec fn hash_matches(question: Seq<char>, expected: Seq<char>) -> bool {
    expected == question_fingerprint(question)
}

/// Whether `expected_hash` is the fingerprint of `question`.
pub fn verify_hash(question: &str, expected_hash: &str) -> (ok: bool)
    ensures
        ok == hash_matches(question@, expected_hash@),
{
    let h = question_hash(question);
    str_eq(h.as_str(), expected_hash)
}

/// A question matches the fingerprint that `question_hash` gives it.
pub proof fn law_own_hash_matches(question: Seq<char>)
    ensures
        hash_matches(question, question_fingerprint(question)),
{
}

} // verus!
