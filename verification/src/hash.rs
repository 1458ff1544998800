//! Trusted boundary to the SHA3 family of hash functions.
//!
//! The KEM consumes four primitives from the `sha3` crate: the two
//! fixed-length digests SHA3-256 and SHA3-512 and the two extendable-output
//! functions SHAKE128 and SHAKE256. Each digest is a pure function of its
//! input bytes, so each result is given a name that the contracts of the
//! verified layers speak of; nothing here is proved, only stated.
use vstd::prelude::*;
use sha3::Digest;
use sha3::digest::ExtendableOutput;

verus! {

/// The 32-byte SHA3-256 digest of `input`.
pub uninterp spec fn sha3_256_of(input: Seq<u8>) -> Seq<u8>;

/// The 64-byte SHA3-512 digest of `input`.
pub uninterp spec fn sha3_512_of(input: Seq<u8>) -> Seq<u8>;

/// Byte `i` of the unbounded SHAKE128 output stream for `input`.
pub uninterp spec fn shake128_at(input: Seq<u8>, i: int) -> u8;

/// Byte `i` of the unbounded SHAKE256 output stream for `input`.
pub uninterp spec fn shake256_at(input: Seq<u8>, i: int) -> u8;

/// Relies on sha3::Sha3_256: a 32-byte digest that is a function of the
/// input bytes alone.
#[verifier::external_body]
pub fn sha3_256(input: &Vec<u8>) -> (r: Vec<u8>)
    ensures
        r@ == sha3_256_of(input@),
        r@.len() == 32,
{
    sha3::Sha3_256::digest(input.as_slice()).to_vec()
}

/// Relies on sha3::Sha3_512: a 64-byte digest that is a function of the
/// input bytes alone.
#[verifier::external_body]
pub fn sha3_512(input: &Vec<u8>) -> (r: Vec<u8>)
    ensures
        r@ == sha3_512_of(input@),
        r@.len() == 64,
{
    sha3::Sha3_512::digest(input.as_slice()).to_vec()
}

/// Relies on sha3::Shake128: an extendable-output function whose byte stream
/// is a function of the input alone, a longer output extending a shorter one.
#[verifier::external_body]
pub fn shake128(input: &Vec<u8>, outlen: usize) -> (r: Vec<u8>)
    ensures
        r@.len() == outlen,
        forall|i: int| 0 <= i < outlen ==> r@[i] == shake128_at(input@, i),
{
    let mut out = vec![0u8; outlen];
    sha3::Shake128::digest_xof(input.as_slice(), &mut out);
    out
}

/// Relies on sha3::Shake256: an extendable-output function whose byte stream
/// is a function of the input alone, a longer output extending a shorter one.
#[verifier::external_body]
pub fn shake256(input: &Vec<u8>, outlen: usize) -> (r: Vec<u8>)
    ensures
        r@.len() == outlen,
        forall|i: int| 0 <= i < outlen ==> r@[i] == shake256_at(input@, i),
{
    let mut out = vec![0u8; outlen];
    sha3::Shake256::digest_xof(input.as_slice(), &mut out);
    out
}

} // verus!
