//! Digest primitives.
//!
//! The trie identifies every committed node by the Blake2b 256-bit digest of
//! its encoding. The digests themselves are computed by an outside crate;
//! each is given an uninterpreted name here, so that contracts can say "the
//! digest of these bytes" without restating the algorithm.

use vstd::prelude::*;

verus! {

pub uninterp spec fn blake2_512_of(b: Seq<u8>) -> Seq<u8>;

pub uninterp spec fn blake2_256_of(b: Seq<u8>) -> Seq<u8>;

pub uninterp spec fn blake2_128_of(b: Seq<u8>) -> Seq<u8>;

pub uninterp spec fn twox_64_of(b: Seq<u8>) -> Seq<u8>;

pub uninterp spec fn twox_128_of(b: Seq<u8>) -> Seq<u8>;

/// The 256-bit digest, normalised so that every input provably has a
/// 32-byte image. The executable hash function always returns 32 bytes, so
/// on every byte string that is ever hashed this agrees with
/// `blake2_256_of`; the fallback arm exists only to make the length a
/// definitional fact.
pub open spec fn digest256(b: Seq<u8>) -> Seq<u8> {
    let d = blake2_256_of(b);
    if d.len() == 32 {
        d
    } else {
        Seq::new(32, |i: int| 0u8)
    }
}

/// Relies on sp_crypto_hashing::blake2_512: Blake2b with a 64-byte output,
/// a pure function of the input bytes.
#[verifier::external_body]
pub fn blake2_512(x: &[u8]) -> (r: Vec<u8>)
    ensures
        r@ == blake2_512_of(x@),
        r@.len() == 64,
{
    sp_crypto_hashing::blake2_512(x).to_vec()
}

/// Relies on sp_crypto_hashing::blake2_256: Blake2b with a 32-byte output,
/// a pure function of the input bytes.
#[verifier::external_body]
pub fn blake2_256(x: &[u8]) -> (r: Vec<u8>)
    ensures
        r@ == blake2_256_of(x@),
        r@.len() == 32,
{
    sp_crypto_hashing::blake2_256(x).to_vec()
}

/// Relies on sp_crypto_hashing::blake2_128: Blake2b with a 16-byte output,
/// a pure function of the input bytes.
#[verifier::external_body]
pub fn blake2_128(x: &[u8]) -> (r: Vec<u8>)
    ensures
        r@ == blake2_128_of(x@),
        r@.len() == 16,
{
    sp_crypto_hashing::blake2_128(x).to_vec()
}

/// Relies on sp_crypto_hashing::twox_64: the XX fast non-cryptographic hash
/// with an 8-byte output, a pure function of the input bytes.
#[verifier::external_body]
pub fn twox_64(x: &[u8]) -> (r: Vec<u8>)
    ensures
        r@ == twox_64_of(x@),
        r@.len() == 8,
{
    sp_crypto_hashing::twox_64(x).to_vec()
}

/// Relies on sp_crypto_hashing::twox_128: the XX fast non-cryptographic hash
/// run twice with distinct seeds for a 16-byte output, a pure function of
/// the input bytes.
#[verifier::external_body]
pub fn twox_128(x: &[u8]) -> (r: Vec<u8>)
    ensures
        r@ == twox_128_of(x@),
        r@.len() == 16,
{
    sp_crypto_hashing::twox_128(x).to_vec()
}

/// The digest that identifies trie nodes: Blake2b-256 over the node's
/// encoded bytes.
pub struct Blake2Hasher;

impl Blake2Hasher {
    /// The node-identity hash.
    pub fn hash(x: &[u8]) -> (r: Vec<u8>)
        ensures
            r@ == digest256(x@),
            r@.len() == 32,
    {
        blake2_256(x)
    }
}

} // verus!
