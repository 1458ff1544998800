//! The key-encapsulation mechanism: a Fujisaki-Okamoto style wrapper around
//! the public-key encryption scheme, with implicit rejection and the
//! advisory validation predicates.
//!
//! `decapsulate` never fails on a well-sized ciphertext: on a mismatch it
//! silently derives a fallback secret from the rejection seed, through the
//! same shape of code path as the accept case, selected by a byte mask
//! rather than a branch over the secret comparison.
use vstd::prelude::*;
use crate::params::ParamSet;
use crate::pke::{pke_keygen, pke_encrypt, pke_decrypt, vec_mod_ok, is_encryption_of,
    lemma_encryption_unique, decrypt_msg_spec};
use crate::codec::{byte_encode, byte_decode, decoded_raw, is_encoding, lemma_decode_of_encode,
    lemma_encode_of_decode, lemma_decoded_raw_bound};
use crate::bytes::{concat_bytes, sub_bytes, ct_bytes_eq};
use crate::hash::{sha3_256, sha3_512, shake256, sha3_256_of, sha3_512_of, shake256_at};
use vstd::arithmetic::power2::lemma2_to64;

verus! {

/// The one error the boundary reports: an input buffer whose length is not
/// the parameter set's declared size.
#[derive(Copy, Clone, Debug, PartialEq, Eq, Structural)]
pub enum KemError {
    InvalidLength,
}

/// A freshly generated key pair: two immutable byte arrays of the parameter
/// set's declared sizes.
#[derive(Debug)]
pub struct KeyPair {
    pub public_key: Vec<u8>,
    pub private_key: Vec<u8>,
}

/// What public-key validation checks: declared length, and every 12-bit
/// group of the encoded vector already reduced modulo q, so that decoding
/// and re-encoding the vector reproduces the bytes exactly.
pub open spec fn pk_valid_spec(p: ParamSet, s: Seq<u8>) -> bool {
    s.len() == p.pk_size_spec() && vec_mod_ok(s, p.k_spec())
}

/// What private-key validation checks: both lengths as declared, and the
/// embedded public-key hash consistent with the embedded public key.
pub open spec fn sk_valid_spec(p: ParamSet, sk: Seq<u8>, ct: Seq<u8>) -> bool {
    &&& sk.len() == p.sk_size_spec()
    &&& ct.len() == p.ct_size_spec()
    &&& sk.subrange(768 * p.k_spec() + 32, 768 * p.k_spec() + 64) == sha3_256_of(
        sk.subrange(384 * p.k_spec(), 768 * p.k_spec() + 32),
    )
}

/// The shared secret encapsulation derives: the first half of the digest
/// binding the message to the public-key hash.
pub open spec fn derived_secret(pk: Seq<u8>, seed: Seq<u8>) -> Seq<u8> {
    sha3_512_of(seed + sha3_256_of(pk)).subrange(0, 32)
}

/// The encryption randomness encapsulation derives: the second half of the
/// same digest.
pub open spec fn derived_rnd(pk: Seq<u8>, seed: Seq<u8>) -> Seq<u8> {
    sha3_512_of(seed + sha3_256_of(pk)).subrange(32, 64)
}

/// The secret decapsulation returns when the re-encryption matches: the
/// same derivation bound to the embedded public-key hash.
pub open spec fn accept_secret(p: ParamSet, sk: Seq<u8>, m: Seq<u8>) -> Seq<u8> {
    sha3_512_of(m + sk.subrange(768 * p.k_spec() + 32, 768 * p.k_spec() + 64)).subrange(0, 32)
}

/// The implicit-rejection secret: a pseudorandom function of the rejection
/// seed and the ciphertext presented.
pub open spec fn reject_secret(p: ParamSet, sk: Seq<u8>, ct: Seq<u8>) -> Seq<u8> {
    Seq::new(32, |i: int| shake256_at(sk.subrange(768 * p.k_spec() + 64, 768 * p.k_spec() + 96) + ct, i))
}

/// The randomness decapsulation re-encrypts with: the second half of the
/// digest binding the candidate message to the embedded public-key hash.
pub open spec fn reenc_rnd(p: ParamSet, sk: Seq<u8>, m: Seq<u8>) -> Seq<u8> {
    sha3_512_of(m + sk.subrange(768 * p.k_spec() + 32, 768 * p.k_spec() + 64)).subrange(32, 64)
}

/// There is a candidate message for which `ss` is the decapsulation
/// outcome; the candidate is the unique decryption of the ciphertext, so
/// the secret is a function of the private key and the ciphertext alone.
pub open spec fn decap_ok(p: ParamSet, sk: Seq<u8>, ct: Seq<u8>, ss: Seq<u8>) -> bool {
    exists|m: Seq<u8>| #[trigger] decapsulated(p, sk, ct, m, ss)
}

/// What decapsulation returns on a well-sized private key and ciphertext:
/// for the candidate message `m` that the ciphertext decrypts to, the accept
/// secret when the ciphertext is exactly the re-encryption of `m` under the
/// embedded public key, and the implicit-rejection secret otherwise.
#[verifier::opaque]
pub open spec fn decapsulated(p: ParamSet, sk: Seq<u8>, ct: Seq<u8>, m: Seq<u8>, ss: Seq<u8>) -> bool {
    &&& m.len() == 32
    &&& is_encoding(decrypt_msg_spec(p, sk.subrange(0, 384 * p.k_spec()), ct), m, 1)
    &&& ss == if is_encryption_of(
        p,
        sk.subrange(384 * p.k_spec(), 768 * p.k_spec() + 32),
        m,
        reenc_rnd(p, sk, m),
        ct,
    ) {
        accept_secret(p, sk, m)
    } else {
        reject_secret(p, sk, ct)
    }
}

/// Generate a key pair from a 64-byte seed: the first half drives the
/// encryption keys, the second half becomes the implicit-rejection seed.
/// Returns an error exactly when the seed length is wrong. A fresh public
/// key satisfies the validation predicate, and the private key is the
/// encoded secret vector, the full public key, its hash, and the rejection
/// seed, in that order.
pub fn generate_key_pair(p: ParamSet, seed: &Vec<u8>) -> (r: Result<KeyPair, KemError>)
    ensures
        r is Ok <==> seed@.len() == 64,
        r matches Ok(kp) ==> {
            &&& kp.public_key@.len() == p.pk_size_spec()
            &&& kp.private_key@.len() == p.sk_size_spec()
            &&& pk_valid_spec(p, kp.public_key@)
            &&& kp.private_key@.subrange(384 * p.k_spec(), 768 * p.k_spec() + 32)
                == kp.public_key@
            &&& kp.private_key@.subrange(768 * p.k_spec() + 32, 768 * p.k_spec() + 64)
                == sha3_256_of(kp.public_key@)
            &&& kp.private_key@.subrange(768 * p.k_spec() + 64, 768 * p.k_spec() + 96)
                == seed@.subrange(32, 64)
            &&& kp.public_key@.subrange(384 * p.k_spec(), p.pk_size_spec()) == sha3_512_of(
                seed@.subrange(0, 32).push(p.k_spec() as u8),
            ).subrange(0, 32)
        },
{
    if seed.len() != 64 {
        return Err(KemError::InvalidLength);
    }
    let d = sub_bytes(seed, 0, 32);
    let z = sub_bytes(seed, 32, 64);
    let (ek, dk_pke) = pke_keygen(p, &d);
    let h = sha3_256(&ek);
    let a = concat_bytes(&dk_pke, &ek);
    let b = concat_bytes(&a, &h);
    let sk = concat_bytes(&b, &z);
    proof {
        let k = p.k_spec();
        assert(sk@.subrange(384 * k, 768 * k + 32) =~= ek@);
        assert(sk@.subrange(768 * k + 32, 768 * k + 64) =~= h@);
        assert(sk@.subrange(768 * k + 64, 768 * k + 96) =~= z@);
    }
    Ok(KeyPair { public_key: ek, private_key: sk })
}

/// Encapsulate: derive the shared secret and the encryption randomness from
/// the 32-byte seed bound to the public-key hash, and encrypt the seed.
/// Returns an error exactly when an input length is wrong; the shared
/// secret equals the derivation the contract names, so identical inputs
/// give identical secrets.
pub fn encapsulate(p: ParamSet, pk: &Vec<u8>, seed: &Vec<u8>) -> (r: Result<
    (Vec<u8>, Vec<u8>),
    KemError,
>)
    ensures
        r is Ok <==> pk@.len() == p.pk_size_spec() && seed@.len() == 32,
        r matches Ok(out) ==> {
            &&& out.0@.len() == p.ct_size_spec()
            &&& out.1@.len() == 32
            &&& out.1@ == derived_secret(pk@, seed@)
            &&& is_encryption_of(p, pk@, seed@, derived_rnd(pk@, seed@), out.0@)
        },
{
    if pk.len() != p.pk_size() || seed.len() != 32 {
        return Err(KemError::InvalidLength);
    }
    let hpk = sha3_256(pk);
    let g_in = concat_bytes(seed, &hpk);
    let g = sha3_512(&g_in);
    let key = sub_bytes(&g, 0, 32);
    let rnd = sub_bytes(&g, 32, 64);
    let ct = pke_encrypt(p, pk, seed, &rnd);
    proof {
        assert(rnd@ =~= derived_rnd(pk@, seed@));
    }
    Ok((ct, key))
}

/// A byte mask that is zero exactly when the two equal-length vectors hold
/// the same bytes, accumulated over every position without an early exit.
fn ct_mask_ne(x: &Vec<u8>, y: &Vec<u8>) -> (mask: u8)
    requires
        x@.len() == y@.len(),
    ensures
        mask == 0 <==> x@ == y@,
        mask == 0 || mask == 0xff,
{
    let mut diff: u8 = 0;
    let mut i: usize = 0;
    proof {
        assert(x@.subrange(0, 0) =~= y@.subrange(0, 0));
    }
    while i < x.len()
        invariant
            i <= x@.len(),
            x@.len() == y@.len(),
            diff == 0 <==> x@.subrange(0, i as int) == y@.subrange(0, i as int),
        decreases x@.len() - i,
    {
        let ghost pre = diff;
        let ax = x[i];
        let bx = y[i];
        let d = ax ^ bx;
        diff = diff | d;
        proof {
            assert((ax ^ bx) == 0 <==> ax == bx) by (bit_vector);
            assert((pre | d) == 0 <==> pre == 0 && d == 0) by (bit_vector);
            if diff == 0 {
                assert(x@.subrange(0, i + 1) =~= y@.subrange(0, i + 1));
            } else if x@.subrange(0, i + 1) == y@.subrange(0, i + 1) {
                assert(x@.subrange(0, i as int) =~= x@.subrange(0, i + 1).subrange(0, i as int));
                assert(y@.subrange(0, i as int) =~= y@.subrange(0, i + 1).subrange(0, i as int));
                assert(x@[i as int] == x@.subrange(0, i + 1)[i as int]);
                assert(y@[i as int] == y@.subrange(0, i + 1)[i as int]);
                assert(false);
            }
        }
        i += 1;
    }
    proof {
        assert(x@.subrange(0, x@.len() as int) =~= x@);
        assert(y@.subrange(0, y@.len() as int) =~= y@);
    }
    let dd: u16 = diff as u16;
    proof {
        assert(dd <= 255);
        assert(dd <= 255 ==> ((((dd + 255) as u16) >> 8) == (if dd == 0 {
            0u16
        } else {
            1u16
        }))) by (bit_vector);
    }
    let nz: u8 = ((dd + 255) >> 8) as u8;
    let mask = nz * 255;
    mask
}

/// Pick one of two equal-length byte strings by a mask of all-zero or
/// all-one bits, combining both inputs at every position.
fn ct_select(mask: u8, a: &Vec<u8>, b: &Vec<u8>) -> (r: Vec<u8>)
    requires
        mask == 0 || mask == 0xff,
        a@.len() == b@.len(),
    ensures
        r@.len() == a@.len(),
        mask == 0 ==> r@ == a@,
        mask == 0xff ==> r@ == b@,
{
    let mut r: Vec<u8> = Vec::new();
    let mut i: usize = 0;
    while i < a.len()
        invariant
            mask == 0 || mask == 0xff,
            i <= a@.len(),
            a@.len() == b@.len(),
            r@.len() == i,
            mask == 0 ==> r@ == a@.subrange(0, i as int),
            mask == 0xff ==> r@ == b@.subrange(0, i as int),
        decreases a@.len() - i,
    {
        let av = a[i];
        let bv = b[i];
        let sel = (av & !mask) | (bv & mask);
        proof {
            assert((av & !0u8) | (bv & 0u8) == av) by (bit_vector);
            assert((av & !0xffu8) | (bv & 0xffu8) == bv) by (bit_vector);
            if mask == 0 {
                assert(r@.push(sel) =~= a@.subrange(0, i + 1));
            } else {
                assert(r@.push(sel) =~= b@.subrange(0, i + 1));
            }
        }
        r.push(sel);
        i += 1;
    }
    proof {
        assert(a@.subrange(0, a@.len() as int) =~= a@);
        assert(b@.subrange(0, b@.len() as int) =~= b@);
    }
    r
}

/// Decapsulate: decrypt a candidate message, re-derive the expected
/// ciphertext from it, and return the accept secret or the implicit
/// rejection secret according to a constant-shape byte-mask select. Returns
/// an error exactly when an input length is wrong; otherwise the caller
/// always receives a 32-byte secret, one of the two derivations the
/// contract names.
/// The two decapsulation outcomes, folded into the result predicate: the
/// re-encryption either reproduced the ciphertext or it did not, and a
/// matching ciphertext is unique.
proof fn lemma_decapsulated(
    p: ParamSet,
    sk: Seq<u8>,
    ct: Seq<u8>,
    m: Seq<u8>,
    ss: Seq<u8>,
    ct2: Seq<u8>,
    eq: bool,
)
    requires
        m.len() == 32,
        is_encoding(decrypt_msg_spec(p, sk.subrange(0, 384 * p.k_spec()), ct), m, 1),
        is_encryption_of(
            p,
            sk.subrange(384 * p.k_spec(), 768 * p.k_spec() + 32),
            m,
            reenc_rnd(p, sk, m),
            ct2,
        ),
        eq <==> ct == ct2,
        eq ==> ss == accept_secret(p, sk, m),
        !eq ==> ss == reject_secret(p, sk, ct),
    ensures
        decapsulated(p, sk, ct, m, ss),
{
    reveal(decapsulated);
    let ek = sk.subrange(384 * p.k_spec(), 768 * p.k_spec() + 32);
    let matched = is_encryption_of(p, ek, m, reenc_rnd(p, sk, m), ct);
    if !eq && matched {
        lemma_encryption_unique(p, ek, m, reenc_rnd(p, sk, m), ct, ct2);
    }
}

pub fn decapsulate(p: ParamSet, sk: &Vec<u8>, ct: &Vec<u8>) -> (r: Result<Vec<u8>, KemError>)
    ensures
        r is Ok <==> sk@.len() == p.sk_size_spec() && ct@.len() == p.ct_size_spec(),
        r matches Ok(ss) ==> ss@.len() == 32,
        r matches Ok(ss) ==> decap_ok(p, sk@, ct@, ss@),
{
    if sk.len() != p.sk_size() || ct.len() != p.ct_size() {
        return Err(KemError::InvalidLength);
    }
    let k = p.k();
    let dk_pke = sub_bytes(sk, 0, 384 * k);
    let ek = sub_bytes(sk, 384 * k, 768 * k + 32);
    let h = sub_bytes(sk, 768 * k + 32, 768 * k + 64);
    let z = sub_bytes(sk, 768 * k + 64, 768 * k + 96);
    let m2 = pke_decrypt(p, &dk_pke, ct);
    let g_in = concat_bytes(&m2, &h);
    let g = sha3_512(&g_in);
    let k_prime = sub_bytes(&g, 0, 32);
    let rnd = sub_bytes(&g, 32, 64);
    let z_ct = concat_bytes(&z, ct);
    let k_bar = shake256(&z_ct, 32);
    let ct2 = pke_encrypt(p, &ek, &m2, &rnd);
    let mask = ct_mask_ne(ct, &ct2);
    let ss = ct_select(mask, &k_prime, &k_bar);
    proof {
        let kk = p.k_spec();
        assert(rnd@ =~= reenc_rnd(p, sk@, m2@));
        assert(dk_pke@ =~= sk@.subrange(0, 384 * kk));
        if mask == 0 {
            assert(k_prime@ =~= accept_secret(p, sk@, m2@));
        } else {
            assert(k_bar@ =~= reject_secret(p, sk@, ct@));
        }
        lemma_decapsulated(p, sk@, ct@, m2@, ss@, ct2@, mask == 0);
        assert(decap_ok(p, sk@, ct@, ss@));
    }
    Ok(ss)
}

/// Validate a public key: the declared length, and the encoded vector
/// reproduced exactly by a decode-then-encode round trip, which holds
/// exactly when every 12-bit group is a reduced residue. Never fails:
/// returns the boolean the caller must check.
pub fn validate_public_key(p: ParamSet, pk: &Vec<u8>) -> (r: bool)
    ensures
        r == pk_valid_spec(p, pk@),
{
    if pk.len() != p.pk_size() {
        return false;
    }
    let k = p.k();
    let mut ok = true;
    let mut rr: usize = 0;
    while rr < k
        invariant
            1 <= k <= 4,
            k == p.k_spec(),
            pk@.len() == p.pk_size_spec(),
            rr <= k,
            ok <==> (forall|r2: int, i: int|
                0 <= r2 < rr && 0 <= i < 256 ==> #[trigger] decoded_raw(
                    pk@.subrange(384 * r2, 384 * r2 + 384),
                    12,
                    i,
                ) < 3329),
        decreases k - rr,
    {
        let chunk = sub_bytes(pk, 384 * rr, 384 * rr + 384);
        let dec = byte_decode(&chunk, 12);
        proof {
            lemma2_to64();
        }
        let re = byte_encode(&dec, 12);
        let same = ct_bytes_eq(&re, &chunk);
        proof {
            let ghost ch = chunk@;
            lemma_decode_of_encode(dec@, re@, 12);
            if same {
                assert forall|i: int| 0 <= i < 256 implies #[trigger] decoded_raw(ch, 12, i)
                    < 3329 by {
                    assert(decoded_raw(re@, 12, i) == dec@[i]);
                }
            } else {
                if forall|i: int| 0 <= i < 256 ==> #[trigger] decoded_raw(ch, 12, i) < 3329 {
                    assert forall|i: int| 0 <= i < 256 implies dec@[i] as int == decoded_raw(
                        ch,
                        12,
                        i,
                    ) by {
                        lemma_decoded_raw_bound(ch, 12, i);
                        assert(decoded_raw(ch, 12, i) % 3329 == decoded_raw(ch, 12, i));
                    }
                    lemma_encode_of_decode(ch, dec@, re@, 12);
                    assert(false);
                }
            }
        }
        ok = ok && same;
        rr += 1;
    }
    ok
}

/// Validate a private key against a ciphertext: both declared lengths, and
/// the embedded public-key hash consistent with the embedded public key.
/// Never fails: returns the boolean the caller must check.
pub fn validate_private_key(p: ParamSet, sk: &Vec<u8>, ct: &Vec<u8>) -> (r: bool)
    ensures
        r == sk_valid_spec(p, sk@, ct@),
{
    if sk.len() != p.sk_size() || ct.len() != p.ct_size() {
        return false;
    }
    let k = p.k();
    let ek = sub_bytes(sk, 384 * k, 768 * k + 32);
    let h = sha3_256(&ek);
    let stored = sub_bytes(sk, 768 * k + 32, 768 * k + 64);
    ct_bytes_eq(&h, &stored)
}

/// Fresh keys pass both validations: the contract of key generation gives
/// exactly what the two validation predicates ask, for any ciphertext of
/// the declared size.
pub proof fn lemma_fresh_keys_validate(p: ParamSet, pk: Seq<u8>, sk: Seq<u8>, ct: Seq<u8>)
    requires
        pk_valid_spec(p, pk),
        sk.len() == p.sk_size_spec(),
        sk.subrange(384 * p.k_spec(), 768 * p.k_spec() + 32) == pk,
        sk.subrange(768 * p.k_spec() + 32, 768 * p.k_spec() + 64) == sha3_256_of(pk),
        ct.len() == p.ct_size_spec(),
    ensures
        pk_valid_spec(p, pk),
        sk_valid_spec(p, sk, ct),
{
}

} // verus!
