use mlkem::kem::{decapsulate, encapsulate, generate_key_pair, validate_private_key,
    validate_public_key, KemError};
use mlkem::params::{ParamSet, ENCAPS_SEED_SIZE, KEY_GEN_SEED_SIZE, SHARED_SECRET_SIZE};
use rand::rngs::OsRng;
use rand::RngCore;

fn random_bytes(n: usize) -> Vec<u8> {
    let mut rng = OsRng;
    let mut seed = vec![0u8; n];
    rng.fill_bytes(&mut seed);
    seed
}

const ALL_SETS: [ParamSet; 3] = [ParamSet::MlKem512, ParamSet::MlKem768, ParamSet::MlKem1024];

#[test]
fn roundtrip_all_param_sets() {
    for p in ALL_SETS {
        let kp = generate_key_pair(p, &random_bytes(KEY_GEN_SEED_SIZE)).unwrap();
        let (ct, ss1) = encapsulate(p, &kp.public_key, &random_bytes(ENCAPS_SEED_SIZE)).unwrap();
        let ss2 = decapsulate(p, &kp.private_key, &ct).unwrap();
        assert_eq!(ss1, ss2);
    }
}

#[test]
fn determinism_same_seed_same_output() {
    for p in ALL_SETS {
        let key_seed = random_bytes(KEY_GEN_SEED_SIZE);
        let kp1 = generate_key_pair(p, &key_seed).unwrap();
        let kp2 = generate_key_pair(p, &key_seed).unwrap();
        assert_eq!(kp1.public_key, kp2.public_key);
        assert_eq!(kp1.private_key, kp2.private_key);

        let enc_seed = random_bytes(ENCAPS_SEED_SIZE);
        let (ct1, ss1) = encapsulate(p, &kp1.public_key, &enc_seed).unwrap();
        let (ct2, ss2) = encapsulate(p, &kp2.public_key, &enc_seed).unwrap();
        assert_eq!(ct1, ct2);
        assert_eq!(ss1, ss2);
    }
}

#[test]
fn size_invariants_all_param_sets() {
    let sizes = [
        (ParamSet::MlKem512, 800usize, 1632usize, 768usize),
        (ParamSet::MlKem768, 1184, 2400, 1088),
        (ParamSet::MlKem1024, 1568, 3168, 1568),
    ];
    for (p, pk_len, sk_len, ct_len) in sizes {
        let kp = generate_key_pair(p, &random_bytes(KEY_GEN_SEED_SIZE)).unwrap();
        assert_eq!(kp.public_key.len(), pk_len);
        assert_eq!(kp.private_key.len(), sk_len);
        let (ct, ss) = encapsulate(p, &kp.public_key, &random_bytes(ENCAPS_SEED_SIZE)).unwrap();
        assert_eq!(ct.len(), ct_len);
        assert_eq!(ss.len(), SHARED_SECRET_SIZE);
        let ss2 = decapsulate(p, &kp.private_key, &ct).unwrap();
        assert_eq!(ss2.len(), SHARED_SECRET_SIZE);
    }
}

#[test]
fn fresh_keys_pass_validation() {
    for p in ALL_SETS {
        let kp = generate_key_pair(p, &random_bytes(KEY_GEN_SEED_SIZE)).unwrap();
        assert!(validate_public_key(p, &kp.public_key));
        let (ct, _ss) = encapsulate(p, &kp.public_key, &random_bytes(ENCAPS_SEED_SIZE)).unwrap();
        assert!(validate_private_key(p, &kp.private_key, &ct));
    }
}

#[test]
fn out_of_range_vector_fails_validation() {
    let p = ParamSet::MlKem768;
    let kp = generate_key_pair(p, &random_bytes(KEY_GEN_SEED_SIZE)).unwrap();
    // Force the first 12-bit group to 0xfff, an unreduced residue.
    let mut bad = kp.public_key.clone();
    bad[0] = 0xff;
    bad[1] |= 0x0f;
    assert!(!validate_public_key(p, &bad));
}

#[test]
fn wrong_length_inputs_are_rejected() {
    let p = ParamSet::MlKem512;
    assert_eq!(generate_key_pair(p, &random_bytes(63)).unwrap_err(), KemError::InvalidLength);
    let kp = generate_key_pair(p, &random_bytes(KEY_GEN_SEED_SIZE)).unwrap();
    assert_eq!(
        encapsulate(p, &kp.public_key, &random_bytes(31)).unwrap_err(),
        KemError::InvalidLength
    );
    let short_pk = random_bytes(799);
    assert_eq!(
        encapsulate(p, &short_pk, &random_bytes(ENCAPS_SEED_SIZE)).unwrap_err(),
        KemError::InvalidLength
    );
    let (ct, _ss) = encapsulate(p, &kp.public_key, &random_bytes(ENCAPS_SEED_SIZE)).unwrap();
    let mut short_ct = ct.clone();
    short_ct.pop();
    assert_eq!(
        decapsulate(p, &kp.private_key, &short_ct).unwrap_err(),
        KemError::InvalidLength
    );
    // Validations report wrong lengths as false rather than as errors.
    assert!(!validate_public_key(p, &short_pk));
    assert!(!validate_private_key(p, &kp.private_key, &short_ct));
}

#[test]
fn tampered_ciphertext_gives_different_secret() {
    let p = ParamSet::MlKem512;
    let kp = generate_key_pair(p, &random_bytes(KEY_GEN_SEED_SIZE)).unwrap();
    let (ct, ss) = encapsulate(p, &kp.public_key, &random_bytes(ENCAPS_SEED_SIZE)).unwrap();
    let positions = [0usize, 1, ct.len() / 2, ct.len() - 2, ct.len() - 1];
    for pos in positions {
        let mut bad = ct.clone();
        bad[pos] ^= 0x01;
        let ss2 = decapsulate(p, &kp.private_key, &bad).unwrap();
        assert_eq!(ss2.len(), SHARED_SECRET_SIZE);
        assert_ne!(ss2, ss);
    }
}
