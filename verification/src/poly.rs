//! Arithmetic in the ring Z_q[X]/(X^256 + 1) with q = 3329.
//!
//! Polynomials are vectors of 256 coefficients, each reduced modulo q.
//! Multiplication works in the number-theoretic-transform domain: `ntt` and
//! `inv_ntt` convert between the two representations and `ntt_mul` multiplies
//! pointwise over the 128 degree-one residue factors.
use vstd::prelude::*;
use vstd::arithmetic::div_mod::lemma_small_mod;

verus! {

/// `base^exp` modulo q, by repeated multiplication.
pub open spec fn pow_mod_spec(base: int, exp: nat) -> int
    decreases exp,
{
    if exp == 0 {
        1
    } else {
        (pow_mod_spec(base, (exp - 1) as nat) * base) % 3329
    }
}

/// The low seven bits of `x` in reverse order.
pub open spec fn bitrev7_spec(x: int) -> int {
    64 * (x % 2) + 32 * ((x / 2) % 2) + 16 * ((x / 4) % 2) + 8 * ((x / 8) % 2) + 4 * ((x / 16)
        % 2) + 2 * ((x / 32) % 2) + ((x / 64) % 2)
}

/// The root of unity at transform index `i`: 17 raised to the bit-reversed
/// index, modulo q.
pub open spec fn zeta_spec(i: int) -> int {
    pow_mod_spec(17, bitrev7_spec(i % 128) as nat)
}

/// The twist of residue pair `i` in the pointwise product: the odd power
/// 17^(2 bitrev(i) + 1) of the root of unity, modulo q.
pub open spec fn gamma_spec(i: int) -> int {
    pow_mod_spec(17, (2 * bitrev7_spec(i % 128) + 1) as nat)
}

/// The pointwise product of `a` and `b` in the transform domain.
pub open spec fn ntt_mul_spec(a: Seq<u16>, b: Seq<u16>) -> Seq<u16> {
    Seq::new(256, |i: int| ntt_mul_coeff(a, b, i) as u16)
}

/// Coefficient `i` of the pointwise product of `a` and `b` in the transform
/// domain: each of the 128 residue pairs is multiplied modulo X^2 - gamma.
pub open spec fn ntt_mul_coeff(a: Seq<u16>, b: Seq<u16>, i: int) -> int {
    if i % 2 == 0 {
        (a[i] * b[i] + ((a[i + 1] * b[i + 1]) % 3329) * gamma_spec(i / 2)) % 3329
    } else {
        (a[i - 1] * b[i] + a[i] * b[i - 1]) % 3329
    }
}

/// A well-formed polynomial: 256 coefficients, each reduced modulo q.
pub open spec fn poly_wf(s: Seq<u16>) -> bool {
    s.len() == 256 && forall|i: int| 0 <= i < 256 ==> s[i] < 3329
}

/// The all-zero polynomial.
pub open spec fn zero_poly() -> Seq<u16> {
    Seq::new(256, |i: int| 0u16)
}

/// Coefficient-wise sum modulo q.
pub open spec fn add_spec(a: Seq<u16>, b: Seq<u16>) -> Seq<u16> {
    Seq::new(256, |i: int| ((a[i] + b[i]) % 3329) as u16)
}

/// Coefficient-wise difference modulo q.
pub open spec fn sub_spec(a: Seq<u16>, b: Seq<u16>) -> Seq<u16> {
    Seq::new(256, |i: int| ((a[i] + 3329 - b[i]) % 3329) as u16)
}

/// Sum of two polynomials, coefficient-wise modulo q.
pub fn poly_add(a: &Vec<u16>, b: &Vec<u16>) -> (r: Vec<u16>)
    requires
        poly_wf(a@),
        poly_wf(b@),
    ensures
        r@.len() == 256,
        forall|i: int| 0 <= i < 256 ==> r@[i] == (a@[i] + b@[i]) % 3329,
        poly_wf(r@),
        r@ == add_spec(a@, b@),
{
    let mut r: Vec<u16> = Vec::new();
    let mut i: usize = 0;
    while i < 256
        invariant
            poly_wf(a@),
            poly_wf(b@),
            i <= 256,
            r@.len() == i,
            forall|j: int| 0 <= j < i ==> r@[j] == (a@[j] + b@[j]) % 3329,
        decreases 256 - i,
    {
        let s: u32 = (a[i] as u32 + b[i] as u32) % 3329;
        r.push(s as u16);
        i += 1;
    }
    proof {
        assert(r@ =~= add_spec(a@, b@));
    }
    r
}

/// Difference of two polynomials, coefficient-wise modulo q.
pub fn poly_sub(a: &Vec<u16>, b: &Vec<u16>) -> (r: Vec<u16>)
    requires
        poly_wf(a@),
        poly_wf(b@),
    ensures
        r@.len() == 256,
        forall|i: int| 0 <= i < 256 ==> r@[i] == (a@[i] + 3329 - b@[i]) % 3329,
        poly_wf(r@),
        r@ == sub_spec(a@, b@),
{
    let mut r: Vec<u16> = Vec::new();
    let mut i: usize = 0;
    while i < 256
        invariant
            poly_wf(a@),
            poly_wf(b@),
            i <= 256,
            r@.len() == i,
            forall|j: int| 0 <= j < i ==> r@[j] == (a@[j] + 3329 - b@[j]) % 3329,
        decreases 256 - i,
    {
        let s: u32 = (a[i] as u32 + 3329 - b[i] as u32) % 3329;
        r.push(s as u16);
        i += 1;
    }
    proof {
        assert(r@ =~= sub_spec(a@, b@));
    }
    r
}

/// A fresh copy of a polynomial.
pub fn poly_copy(a: &Vec<u16>) -> (r: Vec<u16>)
    ensures
        r@ == a@,
{
    let mut r: Vec<u16> = Vec::new();
    let mut i: usize = 0;
    while i < a.len()
        invariant
            i <= a@.len(),
            r@ == a@.subrange(0, i as int),
        decreases a@.len() - i,
    {
        r.push(a[i]);
        i += 1;
    }
    proof {
        assert(r@ =~= a@);
    }
    r
}

/// `base^exp` modulo q by repeated multiplication.
pub fn pow_mod(base: u16, exp: u16) -> (r: u16)
    requires
        base < 3329,
    ensures
        r < 3329,
        r as int == pow_mod_spec(base as int, exp as nat),
{
    let mut r: u32 = 1;
    let mut e: u16 = exp;
    while e > 0
        invariant
            base < 3329,
            r < 3329,
            e <= exp,
            r as int == pow_mod_spec(base as int, (exp - e) as nat),
        decreases e,
    {
        proof {
            lemma_mul_le(r as int, 3328, base as int, 3328);
        }
        r = (r * base as u32) % 3329;
        e -= 1;
    }
    r as u16
}

/// The low seven bits of `x` in reverse order.
pub fn bitrev7(x: usize) -> (r: u16)
    ensures
        r < 128,
        r as int == bitrev7_spec(x as int % 128),
{
    let b: u16 = (x % 128) as u16;
    let r: u16 = ((b & 1) << 6) | ((b & 2) << 4) | ((b & 4) << 2) | (b & 8) | ((b & 16) >> 2)
        | ((b & 32) >> 4) | ((b & 64) >> 6);
    proof {
        let bb = b;
        assert((((bb & 1) << 6) | ((bb & 2) << 4) | ((bb & 4) << 2) | (bb & 8) | ((bb & 16) >> 2)
            | ((bb & 32) >> 4) | ((bb & 64) >> 6)) == 64 * (bb % 2) + 32 * ((bb / 2) % 2) + 16 * ((
        bb / 4) % 2) + 8 * ((bb / 8) % 2) + 4 * ((bb / 16) % 2) + 2 * ((bb / 32) % 2) + ((bb / 64)
            % 2) && (((bb & 1) << 6) | ((bb & 2) << 4) | ((bb & 4) << 2) | (bb & 8) | ((bb & 16)
            >> 2) | ((bb & 32) >> 4) | ((bb & 64) >> 6)) < 128) by (bit_vector)
            requires
                bb < 128,
        ;
    }
    r
}

/// The root of unity used at position `i` of a transform layer:
/// 17 raised to the bit-reversed index, modulo q.
pub fn zeta(i: usize) -> (r: u16)
    ensures
        r < 3329,
        r as int == zeta_spec(i as int),
{
    pow_mod(17, bitrev7(i))
}

/// Bounded factors give a bounded product.
pub proof fn lemma_mul_le(a: int, am: int, b: int, bm: int)
    by (nonlinear_arith)
    requires
        0 <= a <= am,
        0 <= b <= bm,
    ensures
        a * b <= am * bm,
{
}

/// One butterfly of the forward transform: the pair at distance `len` from
/// position `j`, twisted by the root `z`.
pub open spec fn bfly(f: Seq<u16>, z: int, j: int, len: int) -> Seq<u16> {
    let t = (z * f[j + len]) % 3329;
    f.update(j + len, ((f[j] + 3329 - t) % 3329) as u16).update(j, ((f[j] + t) % 3329) as u16)
}

/// `cnt` consecutive forward butterflies from position `j`.
pub open spec fn ntt_group_spec(f: Seq<u16>, z: int, j: int, cnt: nat, len: int) -> Seq<u16>
    decreases cnt,
{
    if cnt == 0 {
        f
    } else {
        ntt_group_spec(bfly(f, z, j, len), z, j + 1, (cnt - 1) as nat, len)
    }
}

/// The forward butterfly layer of half-width `len` applied to the groups
/// from `start` on; the group at `start` is twisted by the root at index
/// `off + start / (2 len)`.
pub open spec fn ntt_layer_spec(f: Seq<u16>, len: int, off: int, start: int) -> Seq<u16>
    decreases 256 - start,
    when 1 <= len && 0 <= start
{
    if start + 2 * len > 256 {
        f
    } else {
        ntt_layer_spec(
            ntt_group_spec(f, zeta_spec(off + start / (2 * len)), start, len as nat, len),
            len,
            off,
            start + 2 * len,
        )
    }
}

/// The forward transform: seven butterfly layers of halving width.
pub open spec fn ntt_spec(a: Seq<u16>) -> Seq<u16> {
    let f1 = ntt_layer_spec(a, 128, 1, 0);
    let f2 = ntt_layer_spec(f1, 64, 2, 0);
    let f3 = ntt_layer_spec(f2, 32, 4, 0);
    let f4 = ntt_layer_spec(f3, 16, 8, 0);
    let f5 = ntt_layer_spec(f4, 8, 16, 0);
    let f6 = ntt_layer_spec(f5, 4, 32, 0);
    ntt_layer_spec(f6, 2, 64, 0)
}

/// `cnt` consecutive forward butterflies from position `j`, in place.
fn ntt_group(f: Vec<u16>, z: u16, j: usize, cnt: usize, len: usize) -> (r: Vec<u16>)
    requires
        poly_wf(f@),
        z < 3329,
        1 <= len,
        j + cnt + len <= 256,
    ensures
        r@ == ntt_group_spec(f@, z as int, j as int, cnt as nat, len as int),
        poly_wf(r@),
    decreases cnt,
{
    if cnt == 0 {
        f
    } else {
        let ghost f0 = f@;
        let mut g = f;
        let a = g[j];
        let u = g[j + len];
        proof {
            lemma_mul_le(z as int, 3328, u as int, 3328);
        }
        let t: u32 = (z as u32 * u as u32) % 3329;
        g[j + len] = ((a as u32 + 3329 - t) % 3329) as u16;
        g[j] = ((a as u32 + t) % 3329) as u16;
        proof {
            assert(g@ =~= bfly(f0, z as int, j as int, len as int));
        }
        ntt_group(g, z, j + 1, cnt - 1, len)
    }
}

/// The forward butterfly layer from `start` on, in place.
fn ntt_layer(f: Vec<u16>, len: usize, off: usize, start: usize) -> (r: Vec<u16>)
    requires
        poly_wf(f@),
        1 <= len <= 128,
        off <= 128,
        start <= 256,
    ensures
        r@ == ntt_layer_spec(f@, len as int, off as int, start as int),
        poly_wf(r@),
    decreases 256 - start,
{
    if start + 2 * len > 256 {
        f
    } else {
        let z = zeta(off + start / (2 * len));
        let g = ntt_group(f, z, start, len, len);
        ntt_layer(g, len, off, start + 2 * len)
    }
}

/// Forward number-theoretic transform of a polynomial.
pub fn ntt(a: &Vec<u16>) -> (r: Vec<u16>)
    requires
        poly_wf(a@),
    ensures
        poly_wf(r@),
        r@ == ntt_spec(a@),
{
    let f = poly_copy(a);
    let f = ntt_layer(f, 128, 1, 0);
    let f = ntt_layer(f, 64, 2, 0);
    let f = ntt_layer(f, 32, 4, 0);
    let f = ntt_layer(f, 16, 8, 0);
    let f = ntt_layer(f, 8, 16, 0);
    let f = ntt_layer(f, 4, 32, 0);
    ntt_layer(f, 2, 64, 0)
}

/// One butterfly of the inverse transform: the sum goes to position `j`,
/// the twisted difference to position `j + len`.
pub open spec fn ibfly(f: Seq<u16>, z: int, j: int, len: int) -> Seq<u16> {
    let a = f[j];
    let u = f[j + len];
    f.update(j, ((a + u) % 3329) as u16).update(
        j + len,
        ((z * ((u + 3329 - a) % 3329)) % 3329) as u16,
    )
}

/// `cnt` consecutive inverse butterflies from position `j`.
pub open spec fn inv_ntt_group_spec(f: Seq<u16>, z: int, j: int, cnt: nat, len: int) -> Seq<u16>
    decreases cnt,
{
    if cnt == 0 {
        f
    } else {
        inv_ntt_group_spec(ibfly(f, z, j, len), z, j + 1, (cnt - 1) as nat, len)
    }
}

/// The inverse butterfly layer of half-width `len` from `start` on; the
/// group at `start` is untwisted by the root at index `off - start / (2 len)`.
pub open spec fn inv_ntt_layer_spec(f: Seq<u16>, len: int, off: int, start: int) -> Seq<u16>
    decreases 256 - start,
    when 1 <= len && 0 <= start
{
    if start + 2 * len > 256 {
        f
    } else {
        inv_ntt_layer_spec(
            inv_ntt_group_spec(f, zeta_spec(off - start / (2 * len)), start, len as nat, len),
            len,
            off,
            start + 2 * len,
        )
    }
}

/// Every coefficient multiplied by 128^-1 modulo q, the final scaling of
/// the inverse transform.
pub open spec fn scale_spec(f: Seq<u16>) -> Seq<u16> {
    Seq::new(f.len(), |i: int| ((f[i] * 3303) % 3329) as u16)
}

/// The inverse transform: seven layers of doubling width, then the scaling.
pub open spec fn inv_ntt_spec(a: Seq<u16>) -> Seq<u16> {
    let f1 = inv_ntt_layer_spec(a, 2, 127, 0);
    let f2 = inv_ntt_layer_spec(f1, 4, 63, 0);
    let f3 = inv_ntt_layer_spec(f2, 8, 31, 0);
    let f4 = inv_ntt_layer_spec(f3, 16, 15, 0);
    let f5 = inv_ntt_layer_spec(f4, 32, 7, 0);
    let f6 = inv_ntt_layer_spec(f5, 64, 3, 0);
    scale_spec(inv_ntt_layer_spec(f6, 128, 1, 0))
}

/// `cnt` consecutive inverse butterflies from position `j`, in place.
fn inv_ntt_group(f: Vec<u16>, z: u16, j: usize, cnt: usize, len: usize) -> (r: Vec<u16>)
    requires
        poly_wf(f@),
        z < 3329,
        1 <= len,
        j + cnt + len <= 256,
    ensures
        r@ == inv_ntt_group_spec(f@, z as int, j as int, cnt as nat, len as int),
        poly_wf(r@),
    decreases cnt,
{
    if cnt == 0 {
        f
    } else {
        let ghost f0 = f@;
        let mut g = f;
        let a = g[j];
        let u = g[j + len];
        g[j] = ((a as u32 + u as u32) % 3329) as u16;
        proof {
            lemma_mul_le(z as int, 3328, ((u + 3329 - a) % 3329) as int, 3328);
        }
        g[j + len] = ((z as u32 * ((u as u32 + 3329 - a as u32) % 3329)) % 3329) as u16;
        proof {
            assert(g@ =~= ibfly(f0, z as int, j as int, len as int));
        }
        inv_ntt_group(g, z, j + 1, cnt - 1, len)
    }
}

/// The inverse butterfly layer from `start` on, in place.
fn inv_ntt_layer(f: Vec<u16>, len: usize, off: usize, start: usize) -> (r: Vec<u16>)
    requires
        poly_wf(f@),
        1 <= len <= 128,
        off <= 128,
        start <= 256,
        2 * len * (off + 1) == 512,
    ensures
        r@ == inv_ntt_layer_spec(f@, len as int, off as int, start as int),
        poly_wf(r@),
    decreases 256 - start,
{
    if start + 2 * len > 256 {
        f
    } else {
        let idx = start / (2 * len);
        proof {
            assert(idx <= off) by (nonlinear_arith)
                requires
                    len >= 1,
                    start + 2 * len <= 256,
                    2 * len * (off + 1) == 512,
                    idx == start as int / (2 * len as int),
            ;
        }
        let z = zeta(off - idx);
        let g = inv_ntt_group(f, z, start, len, len);
        inv_ntt_layer(g, len, off, start + 2 * len)
    }
}

/// Inverse number-theoretic transform of a polynomial.
pub fn inv_ntt(a: &Vec<u16>) -> (r: Vec<u16>)
    requires
        poly_wf(a@),
    ensures
        poly_wf(r@),
        r@ == inv_ntt_spec(a@),
{
    let f = poly_copy(a);
    let f = inv_ntt_layer(f, 2, 127, 0);
    let f = inv_ntt_layer(f, 4, 63, 0);
    let f = inv_ntt_layer(f, 8, 31, 0);
    let f = inv_ntt_layer(f, 16, 15, 0);
    let f = inv_ntt_layer(f, 32, 7, 0);
    let f = inv_ntt_layer(f, 64, 3, 0);
    let mut f = inv_ntt_layer(f, 128, 1, 0);
    let ghost f0 = f@;
    let mut i: usize = 0;
    while i < 256
        invariant
            f@.len() == 256,
            f0.len() == 256,
            i <= 256,
            forall|t: int| 0 <= t < i ==> f@[t] == ((f0[t] * 3303) % 3329) as u16,
            forall|t: int| i <= t < 256 ==> f@[t] == f0[t],
            forall|t: int| 0 <= t < 256 ==> f@[t] < 3329,
        decreases 256 - i,
    {
        proof {
            lemma_mul_le(f@[i as int] as int, 3328, 3303, 3303);
        }
        f[i] = ((f[i] as u32 * 3303) % 3329) as u16;
        i += 1;
    }
    proof {
        assert(f@ =~= scale_spec(f0));
    }
    f
}

/// Pointwise product of two polynomials in the transform domain: for each of
/// the 128 degree-one residues, multiply modulo X^2 - gamma with gamma the
/// odd power 17^(2 bitrev(i) + 1) of the root of unity.
pub fn ntt_mul(a: &Vec<u16>, b: &Vec<u16>) -> (r: Vec<u16>)
    requires
        poly_wf(a@),
        poly_wf(b@),
    ensures
        poly_wf(r@),
        forall|j: int| 0 <= j < 256 ==> #[trigger] r@[j] as int == ntt_mul_coeff(a@, b@, j),
        r@ == ntt_mul_spec(a@, b@),
{
    let mut r: Vec<u16> = Vec::new();
    let mut i: usize = 0;
    while i < 128
        invariant
            poly_wf(a@),
            poly_wf(b@),
            i <= 128,
            r@.len() == 2 * i,
            forall|j: int| 0 <= j < 2 * i ==> r@[j] < 3329,
            forall|j: int| 0 <= j < 2 * i ==> #[trigger] r@[j] as int == ntt_mul_coeff(a@, b@, j),
        decreases 128 - i,
    {
        proof {
            lemma_small_mod(i as nat, 128);
        }
        let g: u16 = pow_mod(17, 2 * bitrev7(i) + 1);
        let a0 = a[2 * i] as u32;
        let a1 = a[2 * i + 1] as u32;
        let b0 = b[2 * i] as u32;
        let b1 = b[2 * i + 1] as u32;
        proof {
            lemma_mul_le(a0 as int, 3328, b0 as int, 3328);
            lemma_mul_le(a1 as int, 3328, b1 as int, 3328);
            lemma_mul_le(a0 as int, 3328, b1 as int, 3328);
            lemma_mul_le(a1 as int, 3328, b0 as int, 3328);
            lemma_mul_le(((a1 * b1) % 3329) as int, 3328, g as int, 3328);
        }
        let c0: u32 = (a0 * b0 + ((a1 * b1) % 3329) * g as u32) % 3329;
        let c1: u32 = (a0 * b1 + a1 * b0) % 3329;
        r.push(c0 as u16);
        r.push(c1 as u16);
        proof {
            assert((2 * i as int) % 2 == 0 && (2 * i as int) / 2 == i && (2 * i + 1 as int) % 2
                == 1) by (nonlinear_arith);
        }
        i += 1;
    }
    proof {
        assert(r@ =~= ntt_mul_spec(a@, b@));
    }
    r
}

/// The all-zero polynomial.
pub fn poly_zero() -> (r: Vec<u16>)
    ensures
        poly_wf(r@),
        forall|i: int| 0 <= i < 256 ==> r@[i] == 0,
{
    let mut r: Vec<u16> = Vec::new();
    let mut i: usize = 0;
    while i < 256
        invariant
            i <= 256,
            r@.len() == i,
            forall|j: int| 0 <= j < i ==> r@[j] == 0,
        decreases 256 - i,
    {
        r.push(0);
        i += 1;
    }
    r
}

} // verus!
