use mlkem::kem::{decapsulate, encapsulate, generate_key_pair, validate_private_key,
    validate_public_key};
use mlkem::params::{ParamSet, SHARED_SECRET_SIZE};
use rand::rngs::OsRng;
use rand::RngCore;

fn random_bytes(n: usize) -> Vec<u8> {
    let mut rng = OsRng;
    let mut seed = vec![0u8; n];
    rng.fill_bytes(&mut seed);
    seed
}

#[test]
fn mlkem768_roundtrip() {
    let p = ParamSet::MlKem768;
    let key_seed = random_bytes(64);
    let key_pair = generate_key_pair(p, &key_seed).unwrap();
    assert!(validate_public_key(p, &key_pair.public_key));

    let enc_seed = random_bytes(32);
    let (ct, ss1) = encapsulate(p, &key_pair.public_key, &enc_seed).unwrap();
    assert!(validate_private_key(p, &key_pair.private_key, &ct));
    let ss2 = decapsulate(p, &key_pair.private_key, &ct).unwrap();
    assert_eq!(ss1, ss2);
    assert_eq!(ss1.len(), SHARED_SECRET_SIZE);
}
