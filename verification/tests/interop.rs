//! Cross-implementation vectors: the crate must agree byte for byte with an
//! independent conforming implementation, both on the fixed all-zero test
//! seeds and on fresh random seeds, for every parameter set.
use mlkem::kem::{decapsulate, encapsulate, generate_key_pair};
use mlkem::params::{ParamSet, ENCAPS_SEED_SIZE, KEY_GEN_SEED_SIZE};
use rand::rngs::OsRng;
use rand::RngCore;

fn random_bytes(n: usize) -> Vec<u8> {
    let mut rng = OsRng;
    let mut seed = vec![0u8; n];
    rng.fill_bytes(&mut seed);
    seed
}

fn check_against_reference_512(key_seed: &[u8], enc_seed: &[u8]) {
    let p = ParamSet::MlKem512;
    let mut ks = [0u8; 64];
    ks.copy_from_slice(key_seed);
    let mut es = [0u8; 32];
    es.copy_from_slice(enc_seed);

    let ref_kp = libcrux_ml_kem::mlkem512::generate_key_pair(ks);
    let kp = generate_key_pair(p, &key_seed.to_vec()).unwrap();
    assert_eq!(kp.public_key.as_slice(), ref_kp.public_key().as_ref());
    assert_eq!(kp.private_key.as_slice(), ref_kp.private_key().as_ref());

    let (ref_ct, ref_ss) = libcrux_ml_kem::mlkem512::encapsulate(ref_kp.public_key(), es);
    let (ct, ss) = encapsulate(p, &kp.public_key, &enc_seed.to_vec()).unwrap();
    assert_eq!(ct.as_slice(), ref_ct.as_ref());
    assert_eq!(ss.as_slice(), &ref_ss[..]);

    let ref_dec = libcrux_ml_kem::mlkem512::decapsulate(ref_kp.private_key(), &ref_ct);
    let dec = decapsulate(p, &kp.private_key, &ct).unwrap();
    assert_eq!(dec.as_slice(), &ref_dec[..]);
}

#[test]
fn zero_seed_vector_matches_reference() {
    // The fixed interoperability vector: all-zero seeds, smallest set.
    check_against_reference_512(&[0u8; 64], &[0u8; 32]);
}

#[test]
fn zero_seed_vector_is_reproducible() {
    let p = ParamSet::MlKem512;
    let key_seed = vec![0u8; KEY_GEN_SEED_SIZE];
    let enc_seed = vec![0u8; ENCAPS_SEED_SIZE];
    let kp1 = generate_key_pair(p, &key_seed).unwrap();
    let kp2 = generate_key_pair(p, &key_seed).unwrap();
    assert_eq!(kp1.public_key, kp2.public_key);
    assert_eq!(kp1.private_key, kp2.private_key);
    let (ct1, ss1) = encapsulate(p, &kp1.public_key, &enc_seed).unwrap();
    let (ct2, ss2) = encapsulate(p, &kp1.public_key, &enc_seed).unwrap();
    assert_eq!(ct1, ct2);
    assert_eq!(ss1, ss2);
    let dec = decapsulate(p, &kp1.private_key, &ct1).unwrap();
    assert_eq!(dec, ss1);
}

#[test]
fn random_seeds_match_reference_512() {
    check_against_reference_512(&random_bytes(64), &random_bytes(32));
}

#[test]
fn random_seeds_match_reference_768() {
    let p = ParamSet::MlKem768;
    let key_seed = random_bytes(64);
    let enc_seed = random_bytes(32);
    let mut ks = [0u8; 64];
    ks.copy_from_slice(&key_seed);
    let mut es = [0u8; 32];
    es.copy_from_slice(&enc_seed);

    let ref_kp = libcrux_ml_kem::mlkem768::generate_key_pair(ks);
    let kp = generate_key_pair(p, &key_seed).unwrap();
    assert_eq!(kp.public_key.as_slice(), ref_kp.public_key().as_ref());
    assert_eq!(kp.private_key.as_slice(), ref_kp.private_key().as_ref());

    let (ref_ct, ref_ss) = libcrux_ml_kem::mlkem768::encapsulate(ref_kp.public_key(), es);
    let (ct, ss) = encapsulate(p, &kp.public_key, &enc_seed).unwrap();
    assert_eq!(ct.as_slice(), ref_ct.as_ref());
    assert_eq!(ss.as_slice(), &ref_ss[..]);

    let ref_dec = libcrux_ml_kem::mlkem768::decapsulate(ref_kp.private_key(), &ref_ct);
    let dec = decapsulate(p, &kp.private_key, &ct).unwrap();
    assert_eq!(dec.as_slice(), &ref_dec[..]);
}

#[test]
fn random_seeds_match_reference_1024() {
    let p = ParamSet::MlKem1024;
    let key_seed = random_bytes(64);
    let enc_seed = random_bytes(32);
    let mut ks = [0u8; 64];
    ks.copy_from_slice(&key_seed);
    let mut es = [0u8; 32];
    es.copy_from_slice(&enc_seed);

    let ref_kp = libcrux_ml_kem::mlkem1024::generate_key_pair(ks);
    let kp = generate_key_pair(p, &key_seed).unwrap();
    assert_eq!(kp.public_key.as_slice(), ref_kp.public_key().as_ref());
    assert_eq!(kp.private_key.as_slice(), ref_kp.private_key().as_ref());

    let (ref_ct, ref_ss) = libcrux_ml_kem::mlkem1024::encapsulate(ref_kp.public_key(), es);
    let (ct, ss) = encapsulate(p, &kp.public_key, &enc_seed).unwrap();
    assert_eq!(ct.as_slice(), ref_ct.as_ref());
    assert_eq!(ss.as_slice(), &ref_ss[..]);

    let ref_dec = libcrux_ml_kem::mlkem1024::decapsulate(ref_kp.private_key(), &ref_ct);
    let dec = decapsulate(p, &kp.private_key, &ct).unwrap();
    assert_eq!(dec.as_slice(), &ref_dec[..]);
}
