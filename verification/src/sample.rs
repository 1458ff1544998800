//! Deterministic expansion of seeds into ring elements.
//!
//! `sample_ntt` draws a uniform transform-domain polynomial from a seed by
//! rejection sampling over an extendable-output hash stream; `sample_cbd`
//! draws a small-magnitude noise polynomial from a centered binomial
//! distribution over pseudorandom bits. Both are pure functions of their
//! seed bytes.
use vstd::prelude::*;
use crate::hash::{shake128, shake256, shake128_at, shake256_at};
use crate::bytes::append_byte;
use crate::codec::{get_bit, byte_bit};
use crate::poly::poly_wf;

verus! {

/// The first 12-bit candidate of the 3-byte stream chunk at `pos`.
pub open spec fn sample_d1(seed: Seq<u8>, pos: int) -> int {
    shake128_at(seed, pos) + 256 * (shake128_at(seed, pos + 1) as int % 16)
}

/// The second 12-bit candidate of the 3-byte stream chunk at `pos`.
pub open spec fn sample_d2(seed: Seq<u8>, pos: int) -> int {
    shake128_at(seed, pos + 1) as int / 16 + 16 * shake128_at(seed, pos + 2)
}

/// Keep a candidate only when it is a reduced residue and the polynomial is
/// not yet full.
pub open spec fn sample_push(acc: Seq<u16>, v: int) -> Seq<u16> {
    if v < 3329 && acc.len() < 256 {
        acc.push(v as u16)
    } else {
        acc
    }
}

/// The coefficients accepted from the first `pos` stream bytes, taken in
/// 3-byte chunks of two candidates each.
pub open spec fn sampled_upto(seed: Seq<u8>, pos: nat) -> Seq<u16>
    decreases pos,
{
    if pos < 3 {
        Seq::empty()
    } else {
        let acc = sampled_upto(seed, (pos - 3) as nat);
        sample_push(sample_push(acc, sample_d1(seed, pos - 3)), sample_d2(seed, pos - 3))
    }
}

/// Fill the remaining positions with zero coefficients.
pub open spec fn zero_padded(acc: Seq<u16>) -> Seq<u16>
    decreases 256 - acc.len(),
{
    if acc.len() >= 256 {
        acc
    } else {
        zero_padded(acc.push(0))
    }
}

/// The uniform polynomial drawn from `seed`: rejection sampling over the
/// fixed stream budget, padded only in the unreachable shortfall case.
pub open spec fn sample_ntt_spec(seed: Seq<u8>) -> Seq<u16> {
    zero_padded(sampled_upto(seed, 2352))
}

/// The number of one bits among `cnt` consecutive stream bits at `base`.
pub open spec fn bit_weight(s: Seq<u8>, base: int, cnt: nat) -> int
    decreases cnt,
{
    if cnt == 0 {
        0
    } else {
        bit_weight(s, base, (cnt - 1) as nat) + byte_bit(s, base + cnt - 1)
    }
}

/// Coefficient `i` of the centered binomial sample of width `eta` over the
/// byte expansion `s`: the difference of two `eta`-bit Hamming weights,
/// reduced modulo q.
pub open spec fn cbd_coeff(s: Seq<u8>, eta: int, i: int) -> int {
    (bit_weight(s, 2 * i * eta, eta as nat) + 3329 - bit_weight(s, 2 * i * eta + eta, eta as nat))
        % 3329
}

/// The centered binomial polynomial of width `eta` over the expansion `s`.
pub open spec fn cbd_spec(s: Seq<u8>, eta: int) -> Seq<u16> {
    Seq::new(256, |i: int| cbd_coeff(s, eta, i) as u16)
}

/// The noise-expansion stream for domain separator `n`: the seed extended by
/// the separator byte, drawn to the binomial sampler's width.
pub open spec fn prf_bytes(seed: Seq<u8>, n: int, eta: int) -> Seq<u8> {
    Seq::new((64 * eta) as nat, |i: int| shake256_at(seed.push(n as u8), i))
}

/// Draw a uniform polynomial in the transform domain from a 34-byte seed
/// (a 32-byte matrix seed plus two index bytes): consume the hash stream in
/// 3-byte chunks, each yielding two 12-bit candidates, and keep the
/// candidates below the modulus until 256 coefficients are filled. The
/// stream is drawn with a generous fixed budget of eleven further blocks
/// beyond the three a fill needs on average; exhausting it would leave the
/// remaining coefficients zero, an event whose probability is far below
/// that of guessing a key outright.
pub fn sample_ntt(seed: &Vec<u8>) -> (r: Vec<u16>)
    ensures
        poly_wf(r@),
        r@ == sample_ntt_spec(seed@),
{
    let buf = shake128(seed, 2352);
    let mut pos: usize = 0;
    let mut r: Vec<u16> = Vec::new();
    while pos + 3 <= buf.len()
        invariant
            r@.len() <= 256,
            forall|i: int| 0 <= i < r@.len() ==> r@[i] < 3329,
            pos <= buf@.len(),
            pos % 3 == 0,
            buf@.len() == 2352,
            forall|i: int| 0 <= i < 2352 ==> buf@[i] == shake128_at(seed@, i),
            r@ == sampled_upto(seed@, pos as nat),
        decreases buf@.len() - pos,
    {
        let b0 = buf[pos] as u16;
        let b1 = buf[pos + 1] as u16;
        let b2 = buf[pos + 2] as u16;
        let d1: u16 = b0 | ((b1 & 0x0f) << 8);
        let d2: u16 = (b1 >> 4) | (b2 << 4);
        proof {
            let x = b1;
            let y = b2;
            let w = b0;
            assert((w | ((x & 0x0f) << 8)) == w + 256 * (x % 16) && (w | ((x & 0x0f) << 8)) < 4096
                && ((x >> 4) | (y << 4)) == x / 16 + 16 * y && ((x >> 4) | (y << 4)) < 4096)
                by (bit_vector)
                requires
                    w < 256,
                    x < 256,
                    y < 256,
            ;
            assert(d1 as int == sample_d1(seed@, pos as int));
            assert(d2 as int == sample_d2(seed@, pos as int));
        }
        if d1 < 3329 && r.len() < 256 {
            r.push(d1);
        }
        if d2 < 3329 && r.len() < 256 {
            r.push(d2);
        }
        proof {
            assert(r@ == sampled_upto(seed@, (pos + 3) as nat));
        }
        pos += 3;
    }
    proof {
        assert(pos == 2352);
    }
    while r.len() < 256
        invariant
            r@.len() <= 256,
            forall|i: int| 0 <= i < r@.len() ==> r@[i] < 3329,
            zero_padded(r@) == sample_ntt_spec(seed@),
        decreases 256 - r@.len(),
    {
        proof {
            assert(zero_padded(r@.push(0)) == zero_padded(r@));
        }
        r.push(0);
    }
    proof {
        assert(zero_padded(r@) == r@);
    }
    r
}

/// Draw a noise polynomial from the centered binomial distribution of width
/// `eta`: each coefficient is the difference of two `eta`-bit Hamming
/// weights taken from the pseudorandom expansion of the seed, reduced
/// modulo q.
pub fn sample_cbd(buf: &Vec<u8>, eta: usize) -> (r: Vec<u16>)
    requires
        eta == 2 || eta == 3,
        buf@.len() == 64 * eta,
    ensures
        poly_wf(r@),
        forall|i: int| 0 <= i < 256 ==> r@[i] as int == cbd_coeff(buf@, eta as int, i),
        r@ == cbd_spec(buf@, eta as int),
{
    let mut r: Vec<u16> = Vec::new();
    let mut i: usize = 0;
    while i < 256
        invariant
            eta == 2 || eta == 3,
            buf@.len() == 64 * eta,
            i <= 256,
            r@.len() == i,
            forall|j: int| 0 <= j < i ==> r@[j] < 3329,
            forall|j: int| 0 <= j < i ==> r@[j] as int == cbd_coeff(buf@, eta as int, j),
        decreases 256 - i,
    {
        let mut x: u16 = 0;
        let mut y: u16 = 0;
        let mut j: usize = 0;
        while j < eta
            invariant
                eta == 2 || eta == 3,
                buf@.len() == 64 * eta,
                i < 256,
                j <= eta,
                x <= j,
                y <= j,
                x as int == bit_weight(buf@, 2 * i * eta, j as nat),
                y as int == bit_weight(buf@, 2 * i * eta + eta, j as nat),
            decreases eta - j,
        {
            proof {
                assert(2 * i * eta + eta + j < 8 * (64 * eta)) by (nonlinear_arith)
                    requires
                        i < 256,
                        j < eta,
                        eta >= 2,
                ;
            }
            let bx = get_bit(buf, 2 * i * eta + j);
            let by = get_bit(buf, 2 * i * eta + eta + j);
            x += bx as u16;
            y += by as u16;
            j += 1;
        }
        let c: u32 = (x as u32 + 3329 - y as u32) % 3329;
        r.push(c as u16);
        i += 1;
    }
    proof {
        assert(r@ =~= cbd_spec(buf@, eta as int));
    }
    r
}

/// The pseudorandom byte expansion used for noise sampling: the domain
/// separator `n` is appended to the seed and the stream is drawn to the
/// width the binomial sampler needs.
pub fn prf(seed: &Vec<u8>, n: u8, eta: usize) -> (r: Vec<u8>)
    requires
        eta == 2 || eta == 3,
    ensures
        r@.len() == 64 * eta,
        forall|i: int| 0 <= i < 64 * eta ==> r@[i] == shake256_at(seed@.push(n), i),
        r@ == prf_bytes(seed@, n as int, eta as int),
{
    let input = append_byte(seed, n);
    let r = shake256(&input, 64 * eta);
    proof {
        assert(r@ =~= prf_bytes(seed@, n as int, eta as int));
    }
    r
}

/// The seed of the matrix entry at row-major position `t`: the matrix seed
/// extended by the column and row bytes, row byte last, or the other way
/// around when the transpose is wanted.
pub open spec fn matrix_entry_seed(rho: Seq<u8>, k: int, t: int, transposed: bool) -> Seq<u8> {
    let i = t / k;
    let j = t % k;
    if transposed {
        rho.push(i as u8).push(j as u8)
    } else {
        rho.push(j as u8).push(i as u8)
    }
}

/// Derive the `k x k` public matrix from the 32-byte seed, entry by entry:
/// entry (i, j) comes from the seed extended by the two index bytes, in
/// column-then-row order, or row-then-column when the transpose is wanted.
/// The matrix is stored row-major as `k * k` polynomials.
pub fn gen_matrix(rho: &Vec<u8>, k: usize, transposed: bool) -> (m: Vec<Vec<u16>>)
    requires
        1 <= k <= 4,
        rho@.len() == 32,
    ensures
        m@.len() == k * k,
        forall|i: int| 0 <= i < k * k ==> poly_wf(m@[i]@),
        forall|t: int|
            0 <= t < k * k ==> #[trigger] m@[t]@ == sample_ntt_spec(
                matrix_entry_seed(rho@, k as int, t, transposed),
            ),
{
    let mut m: Vec<Vec<u16>> = Vec::new();
    let mut i: usize = 0;
    while i < k
        invariant
            1 <= k <= 4,
            rho@.len() == 32,
            i <= k,
            m@.len() == i * k,
            forall|t: int| 0 <= t < m@.len() ==> poly_wf(m@[t]@),
            forall|t: int|
                0 <= t < m@.len() ==> #[trigger] m@[t]@ == sample_ntt_spec(
                    matrix_entry_seed(rho@, k as int, t, transposed),
                ),
        decreases k - i,
    {
        let mut j: usize = 0;
        while j < k
            invariant
                1 <= k <= 4,
                rho@.len() == 32,
                i < k,
                j <= k,
                m@.len() == i * k + j,
                forall|t: int| 0 <= t < m@.len() ==> poly_wf(m@[t]@),
                forall|t: int|
                    0 <= t < m@.len() ==> #[trigger] m@[t]@ == sample_ntt_spec(
                        matrix_entry_seed(rho@, k as int, t, transposed),
                    ),
            decreases k - j,
        {
            let with_first = append_byte(rho, if transposed {
                i as u8
            } else {
                j as u8
            });
            let seed = append_byte(&with_first, if transposed {
                j as u8
            } else {
                i as u8
            });
            proof {
                assert((i * k + j) as int / (k as int) == i && (i * k + j) as int % (k as int)
                    == j) by (nonlinear_arith)
                    requires
                        0 <= i,
                        0 <= j < k,
                ;
            }
            m.push(sample_ntt(&seed));
            j += 1;
        }
        proof {
            assert((i + 1) * k == i * k + k) by (nonlinear_arith);
        }
        i += 1;
    }
    proof {
        assert(m@.len() == k * k);
    }
    m
}

} // verus!
