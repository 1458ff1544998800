//! The module-lattice public-key encryption scheme underlying the KEM.
//!
//! Pure transforms: key generation derives the public matrix and noise
//! vectors from a 32-byte seed, encryption hides a 32-byte message under a
//! fresh seed, decryption recovers it from the secret vector. Decryption of
//! an honest encryption returns the message except with the scheme's
//! negligible failure probability, so no absolute round-trip law is stated
//! here.
use vstd::prelude::*;
use vstd::arithmetic::power2::lemma2_to64;
use crate::params::ParamSet;
use crate::poly::{poly_wf, poly_add, poly_sub, ntt, inv_ntt, ntt_mul, poly_zero, zero_poly,
    add_spec, sub_spec, ntt_mul_spec, ntt_spec, inv_ntt_spec};
use crate::codec::{byte_encode, byte_decode, compress_poly, decompress_poly, is_encoding,
    decoded_raw, decoded_coeff, decoded_poly, compress_spec, decompress_spec,
    lemma_decode_of_encode, lemma_encoding_unique};
use crate::sample::{sample_ntt, sample_cbd, prf, gen_matrix, sample_ntt_spec, matrix_entry_seed,
    cbd_spec, prf_bytes};
use crate::bytes::{concat_bytes, sub_bytes, append_byte};
use crate::hash::{sha3_512, sha3_512_of};

verus! {

/// A well-formed length-`k` vector of polynomials.
pub open spec fn pvec_wf(v: Seq<Vec<u16>>, k: int) -> bool {
    v.len() == k && forall|i: int| 0 <= i < k ==> poly_wf(#[trigger] v[i]@)
}

/// Every 12-bit group of each 384-byte block of `s` holds a reduced residue:
/// the property the public-key validation predicate checks.
pub open spec fn vec_mod_ok(s: Seq<u8>, k: int) -> bool {
    forall|r: int, i: int|
        0 <= r < k && 0 <= i < 256 ==> #[trigger] decoded_raw(
            s.subrange(384 * r, 384 * r + 384),
            12,
            i,
        ) < 3329
}

/// The transform-domain inner product of the first `j` coordinate pairs of
/// two vectors of polynomials.
pub open spec fn dot_spec(a: Seq<Seq<u16>>, b: Seq<Seq<u16>>, j: nat) -> Seq<u16>
    decreases j,
{
    if j == 0 {
        zero_poly()
    } else {
        add_spec(dot_spec(a, b, (j - 1) as nat), ntt_mul_spec(a[j - 1], b[j - 1]))
    }
}

/// Block `i` of the encoded secret vector, decoded.
pub open spec fn s_hat_spec(dk: Seq<u8>, i: int) -> Seq<u16> {
    decoded_poly(dk.subrange(384 * i, 384 * i + 384), 12)
}

/// Vector component `i` of a ciphertext: decoded from its `du`-bit packing,
/// decompressed, and carried into the transform domain.
pub open spec fn u_hat_spec(p: ParamSet, ct: Seq<u8>, i: int) -> Seq<u16> {
    let du = p.du_spec();
    ntt_spec(decompress_spec(decoded_poly(ct.subrange(32 * du * i, 32 * du * i + 32 * du), du), du))
}

/// The message polynomial decryption recovers: the decompressed ring
/// component minus the secret-vector contribution, compressed to one bit
/// per coefficient.
#[verifier::opaque]
pub open spec fn decrypt_msg_spec(p: ParamSet, dk: Seq<u8>, ct: Seq<u8>) -> Seq<u16> {
    let k = p.k_spec();
    let du = p.du_spec();
    let dv = p.dv_spec();
    let v = decompress_spec(
        decoded_poly(ct.subrange(32 * du * k, 32 * du * k + 32 * dv), dv),
        dv,
    );
    let s = Seq::new(k as nat, |i: int| s_hat_spec(dk, i));
    let u = Seq::new(k as nat, |i: int| u_hat_spec(p, ct, i));
    compress_spec(sub_spec(v, inv_ntt_spec(dot_spec(s, u, k as nat))), 1)
}

/// The `du`-bit chunk of a ciphertext (or of its vector part) that carries
/// vector component `i`.
pub open spec fn ct_chunk(p: ParamSet, ct: Seq<u8>, i: int) -> Seq<u8> {
    let du = p.du_spec();
    ct.subrange(32 * du * i, 32 * du * i + 32 * du)
}

/// The fresh transform-domain vector component `i` drawn at encryption.
pub open spec fn enc_y_hat(rnd: Seq<u8>, eta1: int, i: int) -> Seq<u16> {
    ntt_spec(cbd_spec(prf_bytes(rnd, i, eta1), eta1))
}

/// The error term added to vector component `i` of the ciphertext.
pub open spec fn enc_e1(rnd: Seq<u8>, k: int, i: int) -> Seq<u16> {
    cbd_spec(prf_bytes(rnd, k + i, 2), 2)
}

/// The error term added to the ring component of the ciphertext.
pub open spec fn enc_e2(rnd: Seq<u8>, k: int) -> Seq<u16> {
    cbd_spec(prf_bytes(rnd, 2 * k, 2), 2)
}

/// Vector component `i` of an encryption before compression: row `i` of the
/// transposed matrix times the fresh vector, carried out of the transform
/// domain, plus its error term.
pub open spec fn enc_u(p: ParamSet, rho: Seq<u8>, rnd: Seq<u8>, i: int) -> Seq<u16> {
    let k = p.k_spec();
    let a = Seq::new(
        k as nat,
        |j: int| sample_ntt_spec(matrix_entry_seed(rho, k, i * k + j, true)),
    );
    let y = Seq::new(k as nat, |j: int| enc_y_hat(rnd, p.eta1_spec(), j));
    add_spec(inv_ntt_spec(dot_spec(a, y, k as nat)), enc_e1(rnd, k, i))
}

/// The ring component of an encryption before compression: the decoded
/// public vector times the fresh vector, plus the error term and the
/// decompressed message polynomial.
pub open spec fn enc_v(p: ParamSet, ek: Seq<u8>, m: Seq<u8>, rnd: Seq<u8>) -> Seq<u16> {
    let k = p.k_spec();
    let t = Seq::new(k as nat, |j: int| decoded_poly(ek.subrange(384 * j, 384 * j + 384), 12));
    let y = Seq::new(k as nat, |j: int| enc_y_hat(rnd, p.eta1_spec(), j));
    let mu = decompress_spec(decoded_poly(m, 1), 1);
    add_spec(add_spec(inv_ntt_spec(dot_spec(t, y, k as nat)), enc_e2(rnd, k)), mu)
}

/// `ct` is exactly the encryption of the message `m` under the key `ek`
/// with the randomness `rnd`: each vector component and the ring component
/// are the compressed packings of the spec-level derivations.
#[verifier::opaque]
pub open spec fn is_encryption_of(
    p: ParamSet,
    ek: Seq<u8>,
    m: Seq<u8>,
    rnd: Seq<u8>,
    ct: Seq<u8>,
) -> bool {
    &&& ct.len() == p.ct_size_spec()
    &&& forall|i: int|
        0 <= i < p.k_spec() ==> is_encoding(
            compress_spec(enc_u(p, ek.subrange(384 * p.k_spec(), p.pk_size_spec()), rnd, i), p.du_spec()),
            #[trigger] ct_chunk(p, ct, i),
            p.du_spec(),
        )
    &&& is_encoding(
        compress_spec(enc_v(p, ek, m, rnd), p.dv_spec()),
        ct.subrange(32 * p.du_spec() * p.k_spec(), p.ct_size_spec()),
        p.dv_spec(),
    )
}

/// A ciphertext is determined by its `du`-bit chunks and its ring part.
proof fn lemma_ct_from_parts(p: ParamSet, c1: Seq<u8>, c2: Seq<u8>)
    requires
        c1.len() == p.ct_size_spec(),
        c2.len() == p.ct_size_spec(),
        forall|i: int| 0 <= i < p.k_spec() ==> #[trigger] ct_chunk(p, c1, i) == ct_chunk(p, c2, i),
        c1.subrange(32 * p.du_spec() * p.k_spec(), p.ct_size_spec()) == c2.subrange(
            32 * p.du_spec() * p.k_spec(),
            p.ct_size_spec(),
        ),
    ensures
        c1 == c2,
{
    let k = p.k_spec();
    let du = p.du_spec();
    let dv = p.dv_spec();
    assert(32 * (du * k + dv) == 32 * du * k + 32 * dv) by (nonlinear_arith);
    assert forall|t: int| 0 <= t < c1.len() implies c1[t] == c2[t] by {
        if t < 32 * du * k {
            let i = t / (32 * du);
            assert(0 <= i < k && 32 * du * i <= t && t < 32 * du * i + 32 * du)
                by (nonlinear_arith)
                requires
                    0 <= t < 32 * du * k,
                    i == t / (32 * du),
                    1 <= du,
                    1 <= k,
            ;
            assert(32 * du * i + 32 * du <= 32 * du * k) by (nonlinear_arith)
                requires
                    i < k,
                    du >= 1,
            ;
            assert(c1[t] == ct_chunk(p, c1, i)[t - 32 * du * i]);
            assert(c2[t] == ct_chunk(p, c2, i)[t - 32 * du * i]);
        } else {
            assert(c1[t] == c1.subrange(32 * du * k, p.ct_size_spec())[t - 32 * du * k]);
            assert(c2[t] == c2.subrange(32 * du * k, p.ct_size_spec())[t - 32 * du * k]);
        }
    }
    assert(c1 =~= c2);
}

/// An encryption is unique: two ciphertexts that both encrypt `m` under the
/// same key and randomness are equal.
pub proof fn lemma_encryption_unique(
    p: ParamSet,
    ek: Seq<u8>,
    m: Seq<u8>,
    rnd: Seq<u8>,
    c1: Seq<u8>,
    c2: Seq<u8>,
)
    requires
        is_encryption_of(p, ek, m, rnd, c1),
        is_encryption_of(p, ek, m, rnd, c2),
    ensures
        c1 == c2,
{
    reveal(is_encryption_of);
    let k = p.k_spec();
    let du = p.du_spec();
    let dv = p.dv_spec();
    assert forall|i: int| 0 <= i < k implies #[trigger] ct_chunk(p, c1, i) == ct_chunk(
        p,
        c2,
        i,
    ) by {
        lemma_encoding_unique(
            compress_spec(enc_u(p, ek.subrange(384 * k, p.pk_size_spec()), rnd, i), du),
            ct_chunk(p, c1, i),
            ct_chunk(p, c2, i),
            du,
        );
    }
    lemma_encoding_unique(
        compress_spec(enc_v(p, ek, m, rnd), dv),
        c1.subrange(32 * du * k, p.ct_size_spec()),
        c2.subrange(32 * du * k, p.ct_size_spec()),
        dv,
    );
    lemma_ct_from_parts(p, c1, c2);
}

/// Encode a vector of polynomials at 12 bits per coefficient, block by block.
pub fn encode_vec(v: &Vec<Vec<u16>>, k: usize) -> (r: Vec<u8>)
    requires
        1 <= k <= 4,
        pvec_wf(v@, k as int),
    ensures
        r@.len() == 384 * k,
        forall|t: int|
            0 <= t < k ==> is_encoding(
                v@[t]@,
                #[trigger] r@.subrange(384 * t, 384 * t + 384),
                12,
            ),
        vec_mod_ok(r@, k as int),
{
    let mut acc: Vec<u8> = Vec::new();
    let mut i: usize = 0;
    while i < k
        invariant
            1 <= k <= 4,
            pvec_wf(v@, k as int),
            i <= k,
            acc@.len() == 384 * i,
            forall|t: int|
                0 <= t < i ==> is_encoding(
                    v@[t]@,
                    #[trigger] acc@.subrange(384 * t, 384 * t + 384),
                    12,
                ),
        decreases k - i,
    {
        proof {
            lemma2_to64();
        }
        let enc = byte_encode(&v[i], 12);
        let acc2 = concat_bytes(&acc, &enc);
        proof {
            assert forall|t: int|
                0 <= t < i + 1 implies is_encoding(
                v@[t]@,
                #[trigger] acc2@.subrange(384 * t, 384 * t + 384),
                12,
            ) by {
                if t < i {
                    assert(acc2@.subrange(384 * t, 384 * t + 384) =~= acc@.subrange(
                        384 * t,
                        384 * t + 384,
                    ));
                } else {
                    assert(acc2@.subrange(384 * t, 384 * t + 384) =~= enc@);
                }
            }
        }
        acc = acc2;
        i += 1;
    }
    proof {
        assert forall|r: int, i2: int|
            0 <= r < k && 0 <= i2 < 256 implies #[trigger] decoded_raw(
            acc@.subrange(384 * r, 384 * r + 384),
            12,
            i2,
        ) < 3329 by {
            lemma_decode_of_encode(v@[r]@, acc@.subrange(384 * r, 384 * r + 384), 12);
        }
    }
    acc
}

/// Decode a vector of polynomials from consecutive 384-byte blocks.
pub fn decode_vec(s: &Vec<u8>, k: usize) -> (r: Vec<Vec<u16>>)
    requires
        1 <= k <= 4,
        s@.len() >= 384 * k,
    ensures
        pvec_wf(r@, k as int),
        forall|t: int, i: int|
            0 <= t < k && 0 <= i < 256 ==> #[trigger] r@[t]@[i] as int == decoded_coeff(
                s@.subrange(384 * t, 384 * t + 384),
                12,
                i,
            ),
{
    let mut r: Vec<Vec<u16>> = Vec::new();
    let mut i: usize = 0;
    while i < k
        invariant
            1 <= k <= 4,
            s@.len() >= 384 * k,
            i <= k,
            r@.len() == i,
            forall|t: int| 0 <= t < i ==> poly_wf(#[trigger] r@[t]@),
            forall|t: int, i2: int|
                0 <= t < i && 0 <= i2 < 256 ==> #[trigger] r@[t]@[i2] as int == decoded_coeff(
                    s@.subrange(384 * t, 384 * t + 384),
                    12,
                    i2,
                ),
        decreases k - i,
    {
        let chunk = sub_bytes(s, 384 * i, 384 * i + 384);
        r.push(byte_decode(&chunk, 12));
        i += 1;
    }
    r
}

/// Multiply the row-major `k x k` matrix by a vector in the transform
/// domain and add the error vector: the public vector of key generation.
fn matvec_mul_add(m: &Vec<Vec<u16>>, v: &Vec<Vec<u16>>, e: &Vec<Vec<u16>>, k: usize) -> (r: Vec<
    Vec<u16>,
>)
    requires
        1 <= k <= 4,
        m@.len() == k * k,
        forall|i: int| 0 <= i < k * k ==> poly_wf(#[trigger] m@[i]@),
        pvec_wf(v@, k as int),
        pvec_wf(e@, k as int),
    ensures
        pvec_wf(r@, k as int),
{
    let mut r: Vec<Vec<u16>> = Vec::new();
    let mut i: usize = 0;
    while i < k
        invariant
            1 <= k <= 4,
            m@.len() == k * k,
            forall|t: int| 0 <= t < k * k ==> poly_wf(#[trigger] m@[t]@),
            pvec_wf(v@, k as int),
            pvec_wf(e@, k as int),
            i <= k,
            r@.len() == i,
            forall|t: int| 0 <= t < i ==> poly_wf(#[trigger] r@[t]@),
        decreases k - i,
    {
        let mut acc = crate::poly::poly_copy(&e[i]);
        let mut j: usize = 0;
        while j < k
            invariant
                1 <= k <= 4,
                m@.len() == k * k,
                forall|t: int| 0 <= t < k * k ==> poly_wf(#[trigger] m@[t]@),
                pvec_wf(v@, k as int),
                i < k,
                j <= k,
                poly_wf(acc@),
            decreases k - j,
        {
            proof {
                assert(i * k + j < k * k && k * k <= 16) by (nonlinear_arith)
                    requires
                        0 <= i < k,
                        0 <= j < k,
                        k <= 4,
                ;
            }
            let prod = ntt_mul(&m[i * k + j], &v[j]);
            acc = poly_add(&acc, &prod);
            j += 1;
        }
        r.push(acc);
        i += 1;
    }
    r
}

/// The inner product of two vectors of polynomials in the transform domain.
fn vec_dot(a: &Vec<Vec<u16>>, b: &Vec<Vec<u16>>, k: usize) -> (r: Vec<u16>)
    requires
        1 <= k <= 4,
        pvec_wf(a@, k as int),
        pvec_wf(b@, k as int),
    ensures
        poly_wf(r@),
        r@ == dot_spec(
            a@.map_values(|x: Vec<u16>| x@),
            b@.map_values(|x: Vec<u16>| x@),
            k as nat,
        ),
{
    let ghost am = a@.map_values(|x: Vec<u16>| x@);
    let ghost bm = b@.map_values(|x: Vec<u16>| x@);
    let mut acc = poly_zero();
    proof {
        assert(acc@ =~= zero_poly());
    }
    let mut j: usize = 0;
    while j < k
        invariant
            1 <= k <= 4,
            pvec_wf(a@, k as int),
            pvec_wf(b@, k as int),
            am == a@.map_values(|x: Vec<u16>| x@),
            bm == b@.map_values(|x: Vec<u16>| x@),
            j <= k,
            poly_wf(acc@),
            acc@ == dot_spec(am, bm, j as nat),
        decreases k - j,
    {
        let prod = ntt_mul(&a[j], &b[j]);
        proof {
            assert(am[j as int] == a@[j as int]@);
            assert(bm[j as int] == b@[j as int]@);
        }
        acc = poly_add(&acc, &prod);
        j += 1;
    }
    acc
}

/// Key generation: expand the seed into the matrix seed and the noise seed,
/// sample the secret and error vectors, and publish the encoded public
/// vector together with the matrix seed. Returns the encryption key and the
/// encoded secret vector.
pub fn pke_keygen(p: ParamSet, d: &Vec<u8>) -> (keys: (Vec<u8>, Vec<u8>))
    requires
        d@.len() == 32,
    ensures
        keys.0@.len() == p.pk_size_spec(),
        keys.1@.len() == 384 * p.k_spec(),
        vec_mod_ok(keys.0@, p.k_spec()),
        keys.0@.subrange(384 * p.k_spec(), p.pk_size_spec()) == sha3_512_of(
            d@.push(p.k_spec() as u8),
        ).subrange(0, 32),
{
    let k = p.k();
    let eta1 = p.eta1();
    let g_in = append_byte(d, k as u8);
    let g = sha3_512(&g_in);
    let rho = sub_bytes(&g, 0, 32);
    let sigma = sub_bytes(&g, 32, 64);
    let a = gen_matrix(&rho, k, false);
    let mut s_hat: Vec<Vec<u16>> = Vec::new();
    let mut e_hat: Vec<Vec<u16>> = Vec::new();
    let mut i: usize = 0;
    while i < k
        invariant
            1 <= k <= 4,
            eta1 == p.eta1_spec(),
            eta1 == 2 || eta1 == 3,
            sigma@.len() == 32,
            i <= k,
            s_hat@.len() == i,
            e_hat@.len() == i,
            forall|t: int| 0 <= t < i ==> poly_wf(#[trigger] s_hat@[t]@),
            forall|t: int| 0 <= t < i ==> poly_wf(#[trigger] e_hat@[t]@),
        decreases k - i,
    {
        let sbuf = prf(&sigma, i as u8, eta1);
        s_hat.push(ntt(&sample_cbd(&sbuf, eta1)));
        let ebuf = prf(&sigma, (k + i) as u8, eta1);
        e_hat.push(ntt(&sample_cbd(&ebuf, eta1)));
        i += 1;
    }
    let t_hat = matvec_mul_add(&a, &s_hat, &e_hat, k);
    let t_enc = encode_vec(&t_hat, k);
    let ek = concat_bytes(&t_enc, &rho);
    let dk = encode_vec(&s_hat, k);
    proof {
        assert(ek@.subrange(384 * p.k_spec(), p.pk_size_spec()) =~= rho@);
        assert forall|r: int, i2: int|
            0 <= r < k && 0 <= i2 < 256 implies #[trigger] decoded_raw(
            ek@.subrange(384 * r, 384 * r + 384),
            12,
            i2,
        ) < 3329 by {
            assert(ek@.subrange(384 * r, 384 * r + 384) =~= t_enc@.subrange(
                384 * r,
                384 * r + 384,
            ));
        }
    }
    (ek, dk)
}

/// Encryption: re-derive the matrix from the key's seed, draw the fresh
/// vector and error terms from the encryption seed, and emit the two
/// compressed ciphertext components hiding the 32-byte message.
pub fn pke_encrypt(p: ParamSet, ek: &Vec<u8>, m: &Vec<u8>, rnd: &Vec<u8>) -> (ct: Vec<u8>)
    requires
        ek@.len() == p.pk_size_spec(),
        m@.len() == 32,
        rnd@.len() == 32,
    ensures
        ct@.len() == p.ct_size_spec(),
        is_encryption_of(p, ek@, m@, rnd@, ct@),
{
    proof {
        reveal(is_encryption_of);
    }
    let k = p.k();
    let eta1 = p.eta1();
    let eta2 = p.eta2();
    let du = p.du();
    let dv = p.dv();
    let t_hat = decode_vec(ek, k);
    let rho = sub_bytes(ek, 384 * k, 384 * k + 32);
    let at = gen_matrix(&rho, k, true);
    let mut y_hat: Vec<Vec<u16>> = Vec::new();
    let mut e1: Vec<Vec<u16>> = Vec::new();
    let mut i: usize = 0;
    while i < k
        invariant
            1 <= k <= 4,
            eta1 == 2 || eta1 == 3,
            eta1 == p.eta1_spec(),
            eta2 == 2,
            k == p.k_spec(),
            rnd@.len() == 32,
            i <= k,
            y_hat@.len() == i,
            e1@.len() == i,
            forall|t: int| 0 <= t < i ==> poly_wf(#[trigger] y_hat@[t]@),
            forall|t: int| 0 <= t < i ==> poly_wf(#[trigger] e1@[t]@),
            forall|t: int|
                0 <= t < i ==> #[trigger] y_hat@[t]@ == enc_y_hat(rnd@, eta1 as int, t),
            forall|t: int| 0 <= t < i ==> #[trigger] e1@[t]@ == enc_e1(rnd@, k as int, t),
        decreases k - i,
    {
        let ybuf = prf(rnd, i as u8, eta1);
        y_hat.push(ntt(&sample_cbd(&ybuf, eta1)));
        let ebuf = prf(rnd, (k + i) as u8, eta2);
        e1.push(sample_cbd(&ebuf, eta2));
        i += 1;
    }
    let e2buf = prf(rnd, (2 * k) as u8, eta2);
    let e2 = sample_cbd(&e2buf, eta2);
    let mu = decompress_poly(&byte_decode(m, 1), 1);
    // u = inv_ntt(At * y) + e1, compressed at du bits, row by row
    let mut c1: Vec<u8> = Vec::new();
    let mut i2: usize = 0;
    while i2 < k
        invariant
            1 <= k <= 4,
            k == p.k_spec(),
            eta1 == p.eta1_spec(),
            du == p.du_spec(),
            1 <= du <= 12,
            rho@ == ek@.subrange(384 * p.k_spec(), p.pk_size_spec()),
            at@.len() == k * k,
            forall|t: int| 0 <= t < k * k ==> poly_wf(#[trigger] at@[t]@),
            forall|t: int|
                0 <= t < k * k ==> #[trigger] at@[t]@ == sample_ntt_spec(
                    matrix_entry_seed(rho@, k as int, t, true),
                ),
            pvec_wf(y_hat@, k as int),
            pvec_wf(e1@, k as int),
            forall|t: int|
                0 <= t < k ==> #[trigger] y_hat@[t]@ == enc_y_hat(rnd@, eta1 as int, t),
            forall|t: int| 0 <= t < k ==> #[trigger] e1@[t]@ == enc_e1(rnd@, k as int, t),
            i2 <= k,
            c1@.len() == 32 * du * i2,
            forall|t: int|
                0 <= t < i2 ==> is_encoding(
                    compress_spec(enc_u(p, rho@, rnd@, t), du as int),
                    #[trigger] ct_chunk(p, c1@, t),
                    du as int,
                ),
        decreases k - i2,
    {
        let ghost a_row = Seq::new(
            k as nat,
            |j: int| sample_ntt_spec(matrix_entry_seed(rho@, k as int, i2 * k + j, true)),
        );
        let ghost y_seq = Seq::new(k as nat, |j: int| enc_y_hat(rnd@, eta1 as int, j));
        let mut acc = poly_zero();
        proof {
            assert(acc@ =~= zero_poly());
        }
        let mut j: usize = 0;
        while j < k
            invariant
                1 <= k <= 4,
                k == p.k_spec(),
                eta1 == p.eta1_spec(),
                at@.len() == k * k,
                forall|t: int| 0 <= t < k * k ==> poly_wf(#[trigger] at@[t]@),
                forall|t: int|
                    0 <= t < k * k ==> #[trigger] at@[t]@ == sample_ntt_spec(
                        matrix_entry_seed(rho@, k as int, t, true),
                    ),
                pvec_wf(y_hat@, k as int),
                forall|t: int|
                    0 <= t < k ==> #[trigger] y_hat@[t]@ == enc_y_hat(rnd@, eta1 as int, t),
                a_row == Seq::new(
                    k as nat,
                    |j2: int| sample_ntt_spec(matrix_entry_seed(rho@, k as int, i2 * k + j2, true)),
                ),
                y_seq == Seq::new(k as nat, |j2: int| enc_y_hat(rnd@, eta1 as int, j2)),
                i2 < k,
                j <= k,
                poly_wf(acc@),
                acc@ == dot_spec(a_row, y_seq, j as nat),
            decreases k - j,
        {
            proof {
                assert(i2 * k + j < k * k && k * k <= 16) by (nonlinear_arith)
                    requires
                        0 <= i2 < k,
                        0 <= j < k,
                        k <= 4,
                ;
            }
            let prod = ntt_mul(&at[i2 * k + j], &y_hat[j]);
            proof {
                assert(a_row[j as int] == at@[i2 * k + j]@);
                assert(y_seq[j as int] == y_hat@[j as int]@);
            }
            acc = poly_add(&acc, &prod);
            j += 1;
        }
        let u_i = poly_add(&inv_ntt(&acc), &e1[i2]);
        proof {
            assert(u_i@ == enc_u(p, rho@, rnd@, i2 as int));
        }
        let enc = byte_encode(&compress_poly(&u_i, du), du);
        let ghost c1_pre = c1@;
        c1 = concat_bytes(&c1, &enc);
        proof {
            assert(32 * du * (i2 + 1) == 32 * du * i2 + 32 * du) by (nonlinear_arith);
            assert forall|t: int|
                0 <= t < i2 + 1 implies is_encoding(
                compress_spec(enc_u(p, rho@, rnd@, t), du as int),
                #[trigger] ct_chunk(p, c1@, t),
                du as int,
            ) by {
                if t < i2 {
                    assert(32 * (du as int) * t + 32 * du <= 32 * du * i2) by (nonlinear_arith)
                        requires
                            0 <= t < i2,
                            du >= 1,
                    ;
                    assert(ct_chunk(p, c1@, t) =~= ct_chunk(p, c1_pre, t));
                } else {
                    assert(ct_chunk(p, c1@, t) =~= enc@);
                }
            }
        }
        i2 += 1;
    }
    proof {
        assert(t_hat@.map_values(|x: Vec<u16>| x@) =~~= Seq::new(
            k as nat,
            |j: int| decoded_poly(ek@.subrange(384 * j, 384 * j + 384), 12),
        ));
        assert(y_hat@.map_values(|x: Vec<u16>| x@) =~~= Seq::new(
            k as nat,
            |j: int| enc_y_hat(rnd@, eta1 as int, j),
        ));
    }
    let v = poly_add(&poly_add(&inv_ntt(&vec_dot(&t_hat, &y_hat, k)), &e2), &mu);
    proof {
        assert(v@ == enc_v(p, ek@, m@, rnd@));
    }
    let c2 = byte_encode(&compress_poly(&v, dv), dv);
    let ct = concat_bytes(&c1, &c2);
    proof {
        assert(32 * (p.du_spec() * p.k_spec() + p.dv_spec()) == 32 * p.du_spec() * p.k_spec() + 32
            * p.dv_spec()) by (nonlinear_arith);
        assert forall|i: int|
            0 <= i < p.k_spec() implies is_encoding(
            compress_spec(enc_u(p, ek@.subrange(384 * p.k_spec(), p.pk_size_spec()), rnd@, i), p.du_spec()),
            #[trigger] ct_chunk(p, ct@, i),
            p.du_spec(),
        ) by {
            assert(32 * p.du_spec() * i + 32 * p.du_spec() <= 32 * p.du_spec() * p.k_spec())
                by (nonlinear_arith)
                requires
                    0 <= i < p.k_spec(),
                    p.du_spec() >= 1,
            ;
            assert(ct_chunk(p, ct@, i) =~= ct_chunk(p, c1@, i));
        }
        assert(ct@.subrange(32 * p.du_spec() * p.k_spec(), p.ct_size_spec()) =~= c2@);
    }
    ct
}

/// Decryption: decompress the two ciphertext components, subtract the
/// secret-vector contribution, and round each coefficient back to one
/// message bit.
pub fn pke_decrypt(p: ParamSet, dk: &Vec<u8>, ct: &Vec<u8>) -> (m: Vec<u8>)
    requires
        dk@.len() == 384 * p.k_spec(),
        ct@.len() == p.ct_size_spec(),
    ensures
        m@.len() == 32,
        is_encoding(decrypt_msg_spec(p, dk@, ct@), m@, 1),
{
    proof {
        reveal(decrypt_msg_spec);
    }
    let k = p.k();
    let du = p.du();
    let dv = p.dv();
    proof {
        assert(32 * (p.du_spec() * p.k_spec() + p.dv_spec()) == 32 * p.du_spec() * p.k_spec() + 32
            * p.dv_spec()) by (nonlinear_arith);
    }
    let mut u_hat: Vec<Vec<u16>> = Vec::new();
    let mut i: usize = 0;
    while i < k
        invariant
            1 <= k <= 4,
            du == p.du_spec(),
            1 <= du <= 12,
            ct@.len() == 32 * du * k + 32 * p.dv_spec(),
            i <= k,
            u_hat@.len() == i,
            forall|t: int| 0 <= t < i ==> poly_wf(#[trigger] u_hat@[t]@),
            forall|t: int| 0 <= t < i ==> #[trigger] u_hat@[t]@ == u_hat_spec(p, ct@, t),
        decreases k - i,
    {
        proof {
            assert(32 * du * i + 32 * du == 32 * du * (i + 1) && 32 * du * (i + 1) <= 32 * du * k
                && 32 * du * k <= 1536) by (nonlinear_arith)
                requires
                    0 <= i < k,
                    1 <= du <= 12,
                    k <= 4,
            ;
        }
        let chunk = sub_bytes(ct, 32 * du * i, 32 * du * i + 32 * du);
        let u_i = decompress_poly(&byte_decode(&chunk, du), du);
        u_hat.push(ntt(&u_i));
        i += 1;
    }
    proof {
        assert(32 * du * k <= 1536 && 32 * dv <= 384) by (nonlinear_arith)
            requires
                1 <= du <= 12,
                1 <= dv <= 12,
                k <= 4,
        ;
    }
    let c2 = sub_bytes(ct, 32 * du * k, 32 * du * k + 32 * dv);
    let v = decompress_poly(&byte_decode(&c2, dv), dv);
    let s_hat = decode_vec(dk, k);
    proof {
        assert forall|t: int| 0 <= t < k implies #[trigger] s_hat@[t]@ == s_hat_spec(dk@, t) by {
            assert(s_hat@[t]@ =~= s_hat_spec(dk@, t));
        }
        assert(s_hat@.map_values(|x: Vec<u16>| x@) =~= Seq::new(
            k as nat,
            |t: int| s_hat_spec(dk@, t),
        ));
        assert(u_hat@.map_values(|x: Vec<u16>| x@) =~= Seq::new(
            k as nat,
            |t: int| u_hat_spec(p, ct@, t),
        ));
    }
    let w = poly_sub(&v, &inv_ntt(&vec_dot(&s_hat, &u_hat, k)));
    proof {
        lemma2_to64();
    }
    byte_encode(&compress_poly(&w, 1), 1)
}

} // verus!
