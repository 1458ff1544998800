//! Bit-packing of polynomial coefficients and lossy coefficient compression.
//!
//! `byte_encode` packs 256 coefficients at `d` bits each, little-endian bit
//! order within bytes; `byte_decode` is its exact inverse on in-range
//! coefficients, and packing the decoded coefficients again reproduces the
//! bytes exactly (both directions are proved below). `compress` and
//! `decompress` round a coefficient into and out of a `d`-bit range; that
//! pair is lossy by design and no round-trip law holds for it, only the
//! scheme's probabilistic correctness bound.
use vstd::prelude::*;
use vstd::arithmetic::power2::{pow2, lemma_pow2_unfold, lemma_pow2_pos, lemma2_to64,
    lemma_pow2_strictly_increases};
use vstd::arithmetic::div_mod::{lemma_div_denominator, lemma_fundamental_div_mod,
    lemma_multiply_divide_lt};
use vstd::bits::{lemma_u16_shr_is_div, lemma_u16_shl_is_mul, lemma_u8_shr_is_div};
use crate::poly::poly_wf;

verus! {

/// Bit `b` of the non-negative integer `x`.
pub open spec fn bit_of(x: int, b: nat) -> int {
    (x / pow2(b) as int) % 2
}

/// The value of a little-endian bit string.
pub open spec fn bits_value(bits: Seq<int>) -> int
    decreases bits.len(),
{
    if bits.len() == 0 {
        0
    } else {
        bits[0] + 2 * bits_value(bits.drop_first())
    }
}

/// Bit `t` of a byte string, bytes little-endian bit first.
pub open spec fn byte_bit(s: Seq<u8>, t: int) -> int {
    bit_of(s[t / 8] as int, (t % 8) as nat)
}

/// Bit `t` of the bit string formed by 256 coefficients at `d` bits each.
pub open spec fn coeff_bit(c: Seq<u16>, d: int, t: int) -> int {
    bit_of(c[t / d] as int, (t % d) as nat)
}

/// `s` is the `d`-bit packing of the 256 in-range coefficients `c`.
pub open spec fn is_encoding(c: Seq<u16>, s: Seq<u8>, d: int) -> bool {
    &&& c.len() == 256
    &&& s.len() == 32 * d
    &&& forall|i: int| 0 <= i < 256 ==> (c[i] as int) < pow2(d as nat)
    &&& forall|t: int| 0 <= t < 256 * d ==> byte_bit(s, t) == coeff_bit(c, d, t)
}

/// The little-endian bit group of width `d` at coefficient position `i`.
pub open spec fn coeff_bits_of(s: Seq<u8>, d: int, i: int) -> Seq<int> {
    Seq::new(d as nat, |b: int| byte_bit(s, d * i + b))
}

/// The raw (unreduced) value of the `d`-bit group at position `i` of `s`.
pub open spec fn decoded_raw(s: Seq<u8>, d: int, i: int) -> int {
    bits_value(coeff_bits_of(s, d, i))
}

/// The decoded coefficient: the raw group value, reduced modulo q when the
/// full 12-bit width is in use.
pub open spec fn decoded_coeff(s: Seq<u8>, d: int, i: int) -> int {
    if d == 12 {
        decoded_raw(s, d, i) % 3329
    } else {
        decoded_raw(s, d, i)
    }
}

/// A bit string of zeros and ones encodes a value below `2^len`.
pub proof fn lemma_bits_value_bound(bits: Seq<int>)
    requires
        forall|i: int| 0 <= i < bits.len() ==> 0 <= #[trigger] bits[i] <= 1,
    ensures
        0 <= bits_value(bits) < pow2(bits.len()),
    decreases bits.len(),
{
    if bits.len() == 0 {
        assert(pow2(0) == 1) by {
            lemma2_to64();
        }
    } else {
        lemma_bits_value_bound(bits.drop_first());
        lemma_pow2_unfold(bits.len());
    }
}

/// Bit `b` of the value of a zero/one bit string is the string's bit `b`.
pub proof fn lemma_bits_value_bit(bits: Seq<int>, b: nat)
    requires
        forall|i: int| 0 <= i < bits.len() ==> 0 <= #[trigger] bits[i] <= 1,
        b < bits.len(),
    ensures
        bit_of(bits_value(bits), b) == bits[b as int],
    decreases b,
{
    let v = bits_value(bits);
    let b0 = bits[0];
    let w = bits_value(bits.drop_first());
    lemma_bits_value_bound(bits.drop_first());
    if b == 0 {
        assert(pow2(0) == 1) by {
            lemma2_to64();
        }
        assert((b0 + 2 * w) % 2 == b0) by (nonlinear_arith)
            requires
                0 <= b0 <= 1,
                w >= 0,
        ;
    } else {
        lemma_bits_value_bit(bits.drop_first(), (b - 1) as nat);
        assert((b0 + 2 * w) / 2 == w) by (nonlinear_arith)
            requires
                0 <= b0 <= 1,
                w >= 0,
        ;
        lemma_pow2_unfold(b);
        lemma_pow2_pos((b - 1) as nat);
        lemma_div_denominator(v, 2, pow2((b - 1) as nat) as int);
        assert(v / pow2(b) as int == (v / 2) / pow2((b - 1) as nat) as int);
    }
}

/// A value below `2^n` is the value of its own first `n` bits.
pub proof fn lemma_value_of_bits(x: int, n: nat)
    requires
        0 <= x < pow2(n),
    ensures
        bits_value(Seq::new(n, |b: int| bit_of(x, b as nat))) == x,
    decreases n,
{
    let bits = Seq::new(n, |b: int| bit_of(x, b as nat));
    if n == 0 {
        assert(pow2(0) == 1) by {
            lemma2_to64();
        }
    } else {
        lemma_pow2_unfold(n);
        let y = x / 2;
        assert(0 <= y < pow2((n - 1) as nat)) by (nonlinear_arith)
            requires
                0 <= x < 2 * pow2((n - 1) as nat),
                y == x / 2,
        ;
        lemma_value_of_bits(y, (n - 1) as nat);
        let ybits = Seq::new((n - 1) as nat, |b: int| bit_of(y, b as nat));
        assert(bits.drop_first() =~= ybits) by {
            assert forall|b: int| 0 <= b < n - 1 implies bits.drop_first()[b] == ybits[b] by {
                lemma_pow2_pos(b as nat);
                lemma_div_denominator(x, 2, pow2(b as nat) as int);
                lemma_pow2_unfold((b + 1) as nat);
                assert(x / pow2((b + 1) as nat) as int == y / pow2(b as nat) as int);
            }
        }
        assert(pow2(0) == 1) by {
            lemma2_to64();
        }
        assert(bits[0] == x % 2);
        lemma_fundamental_div_mod(x, 2);
    }
}

/// Appending a bit raises the value by that bit at the top weight.
pub proof fn lemma_bits_value_push(bits: Seq<int>, b: int)
    ensures
        bits_value(bits.push(b)) == bits_value(bits) + b * pow2(bits.len()),
    decreases bits.len(),
{
    if bits.len() == 0 {
        assert(bits.push(b).len() == 1);
        assert(bits.push(b)[0] == b);
        assert(bits.push(b).drop_first() =~= Seq::<int>::empty());
        assert(bits_value(Seq::<int>::empty()) == 0);
        assert(pow2(0) == 1) by {
            lemma2_to64();
        }
    } else {
        assert(bits.push(b)[0] == bits[0]);
        assert(bits.push(b).drop_first() =~= bits.drop_first().push(b));
        assert(bits_value(bits.push(b)) == bits[0] + 2 * bits_value(bits.drop_first().push(b)));
        lemma_bits_value_push(bits.drop_first(), b);
        lemma_pow2_unfold(bits.len());
        assert(b * pow2(bits.len()) as int == 2 * (b * pow2((bits.len() - 1) as nat) as int))
            by (nonlinear_arith)
            requires
                pow2(bits.len()) == 2 * pow2((bits.len() - 1) as nat),
        ;
    }
}

/// Bit `t % 8` of byte `t / 8`, as an executable step.
pub fn get_bit(s: &Vec<u8>, t: usize) -> (r: u8)
    requires
        t < 8 * s@.len(),
    ensures
        r as int == byte_bit(s@, t as int),
        r <= 1,
{
    proof {
        assert(t as int / 8int < s@.len()) by (nonlinear_arith)
            requires
                t < 8 * s@.len(),
        ;
    }
    let byte = s[t / 8];
    let sh = (t % 8) as u8;
    let r = (byte >> sh) & 1;
    proof {
        lemma_u8_shr_is_div(byte, sh);
        let y = byte >> sh;
        assert((y & 1) == y % 2) by (bit_vector);
    }
    r
}

/// Bit `t % d` of coefficient `t / d`, as an executable step.
pub fn get_coeff_bit(c: &Vec<u16>, d: usize, t: usize) -> (r: u16)
    requires
        1 <= d <= 12,
        t < 256 * d,
        c@.len() == 256,
    ensures
        r as int == coeff_bit(c@, d as int, t as int),
        r <= 1,
{
    proof {
        assert(t as int / (d as int) < 256) by (nonlinear_arith)
            requires
                t < 256 * d,
                d >= 1,
        ;
    }
    let w = c[t / d];
    let sh = (t % d) as u16;
    let r = (w >> sh) & 1;
    proof {
        lemma_u16_shr_is_div(w, sh);
        let y = w >> sh;
        assert((y & 1) == y % 2) by (bit_vector);
    }
    r
}

/// `2^d` for the bit-widths in use.
pub fn pow2_u16(d: usize) -> (r: u16)
    requires
        d <= 12,
    ensures
        r == pow2(d as nat),
{
    proof {
        lemma2_to64();
        lemma_u16_shl_is_mul(1, d as u16);
    }
    1u16 << (d as u16)
}

/// Pack 256 in-range coefficients into `32 d` bytes, `d` bits per
/// coefficient, little-endian bit order.
pub fn byte_encode(c: &Vec<u16>, d: usize) -> (r: Vec<u8>)
    requires
        1 <= d <= 12,
        c@.len() == 256,
        forall|i: int| 0 <= i < 256 ==> (c@[i] as int) < pow2(d as nat),
    ensures
        is_encoding(c@, r@, d as int),
{
    let mut r: Vec<u8> = Vec::new();
    let mut j: usize = 0;
    while j < 32 * d
        invariant
            1 <= d <= 12,
            c@.len() == 256,
            forall|i: int| 0 <= i < 256 ==> (c@[i] as int) < pow2(d as nat),
            j <= 32 * d,
            r@.len() == j,
            forall|t: int|
                0 <= t < 8 * j ==> byte_bit(r@, t) == coeff_bit(c@, d as int, t),
        decreases 32 * d - j,
    {
        let ghost r_pre = r@;
        let mut val: u16 = 0;
        let mut b: usize = 0;
        proof {
            lemma2_to64();
        }
        while b < 8
            invariant
                1 <= d <= 12,
                c@.len() == 256,
                forall|i: int| 0 <= i < 256 ==> (c@[i] as int) < pow2(d as nat),
                j < 32 * d,
                b <= 8,
                val as int == bits_value(
                    Seq::new(b as nat, |bb: int| coeff_bit(c@, d as int, 8 * j + bb)),
                ),
                val < pow2(b as nat),
            decreases 8 - b,
        {
            let ghost bits = Seq::new(b as nat, |bb: int| coeff_bit(c@, d as int, 8 * j + bb));
            proof {
                assert(8 * j + b < 256 * d) by (nonlinear_arith)
                    requires
                        j < 32 * d,
                        b < 8,
                ;
            }
            let bit = get_coeff_bit(c, d, 8 * j + b);
            proof {
                lemma2_to64();
                lemma_pow2_strictly_increases(b as nat, 8);
                assert(bit * pow2(b as nat) <= pow2(b as nat)) by (nonlinear_arith)
                    requires
                        bit <= 1,
                ;
                lemma_u16_shl_is_mul(bit, b as u16);
                lemma_bits_value_push(bits, bit as int);
                assert(Seq::new((b + 1) as nat, |bb: int| coeff_bit(c@, d as int, 8 * j + bb))
                    =~= bits.push(coeff_bit(c@, d as int, 8 * j + b as int)));
                lemma_pow2_unfold((b + 1) as nat);
            }
            val = val + (bit << (b as u16));
            b += 1;
        }
        proof {
            lemma2_to64();
        }
        r.push(val as u8);
        proof {
            let ghost bits8 = Seq::new(8, |bb: int| coeff_bit(c@, d as int, 8 * j + bb));
            assert(val < 256);
            assert(val as int == bits_value(bits8));
            assert(r@[j as int] == val as u8);
            assert forall|bb: int| 0 <= bb < 8 implies 0 <= #[trigger] bits8[bb] <= 1 by {
                lemma_bit_of_zero_one(c@[(8 * (j as int) + bb) / (d as int)] as int,
                    ((8 * (j as int) + bb) % (d as int)) as nat);
            }
            assert forall|t: int| 0 <= t < 8 * (j + 1) implies byte_bit(r@, t) == coeff_bit(
                c@,
                d as int,
                t,
            ) by {
                if t < 8 * j {
                    assert(t / 8 < j && t / 8 == t / 8 && 0 <= t % 8 < 8) by (nonlinear_arith)
                        requires
                            0 <= t < 8 * j,
                    ;
                    assert(byte_bit(r_pre, t) == coeff_bit(c@, d as int, t));
                    assert(r@[t / 8] == r_pre[t / 8]);
                    assert(byte_bit(r@, t) == byte_bit(r_pre, t));
                } else {
                    assert(t / 8 == j && t % 8 == t - 8 * j) by (nonlinear_arith)
                        requires
                            8 * j <= t < 8 * (j + 1),
                    ;
                    lemma_bits_value_bit(bits8, (t - 8 * (j as int)) as nat);
                }
            }
        }
        j += 1;
    }
    r
}

/// A bit of a non-negative number is zero or one.
proof fn lemma_bit_of_zero_one(x: int, b: nat)
    requires
        x >= 0,
    ensures
        0 <= bit_of(x, b) <= 1,
{
    lemma_pow2_pos(b);
}

/// Unpack `32 d` bytes into 256 coefficients of `d` bits each; at the full
/// 12-bit width the group value is reduced modulo q.
pub fn byte_decode(s: &Vec<u8>, d: usize) -> (r: Vec<u16>)
    requires
        1 <= d <= 12,
        s@.len() == 32 * d,
    ensures
        r@.len() == 256,
        forall|i: int| 0 <= i < 256 ==> r@[i] as int == decoded_coeff(s@, d as int, i),
        forall|i: int| 0 <= i < 256 ==> (r@[i] as int) < pow2(d as nat),
        poly_wf(r@),
        r@ == decoded_poly(s@, d as int),
{
    let mut r: Vec<u16> = Vec::new();
    let mut i: usize = 0;
    proof {
        lemma2_to64();
    }
    while i < 256
        invariant
            1 <= d <= 12,
            s@.len() == 32 * d,
            i <= 256,
            r@.len() == i,
            forall|ii: int| 0 <= ii < i ==> r@[ii] as int == decoded_coeff(s@, d as int, ii),
            forall|ii: int| 0 <= ii < i ==> (r@[ii] as int) < pow2(d as nat),
            forall|ii: int| 0 <= ii < i ==> r@[ii] < 3329,
        decreases 256 - i,
    {
        let mut val: u16 = 0;
        let mut b: usize = 0;
        proof {
            lemma2_to64();
        }
        while b < d
            invariant
                1 <= d <= 12,
                s@.len() == 32 * d,
                i < 256,
                b <= d,
                val as int == bits_value(
                    Seq::new(b as nat, |bb: int| byte_bit(s@, d * i + bb)),
                ),
                val < pow2(b as nat),
            decreases d - b,
        {
            let ghost bits = Seq::new(b as nat, |bb: int| byte_bit(s@, d * i + bb));
            proof {
                assert(d * i + b < 8 * (32 * d)) by (nonlinear_arith)
                    requires
                        i < 256,
                        b < d,
                ;
            }
            let bit = get_bit(s, d * i + b);
            proof {
                lemma2_to64();
                lemma_pow2_strictly_increases(b as nat, 13);
                assert((bit as u16) * pow2(b as nat) <= pow2(b as nat)) by (nonlinear_arith)
                    requires
                        bit <= 1,
                ;
                lemma_u16_shl_is_mul(bit as u16, b as u16);
                lemma_bits_value_push(bits, bit as int);
                assert(Seq::new((b + 1) as nat, |bb: int| byte_bit(s@, d * i + bb))
                    =~= bits.push(byte_bit(s@, d * (i as int) + b as int)));
                lemma_pow2_unfold((b + 1) as nat);
            }
            val = val + ((bit as u16) << (b as u16));
            b += 1;
        }
        proof {
            assert(Seq::new(d as nat, |bb: int| byte_bit(s@, d * i + bb)) =~= coeff_bits_of(
                s@,
                d as int,
                i as int,
            ));
            lemma2_to64();
            if d < 12 {
                lemma_pow2_strictly_increases(d as nat, 12);
            }
        }
        let out: u16 = if d == 12 {
            val % 3329
        } else {
            val
        };
        r.push(out);
        i += 1;
    }
    proof {
        assert(r@ =~= decoded_poly(s@, d as int));
    }
    r
}

/// Unpacking an exact packing returns the packed coefficients: the raw group
/// values of `byte_encode(c, d)` are the coefficients themselves.
pub proof fn lemma_decode_of_encode(c: Seq<u16>, s: Seq<u8>, d: int)
    requires
        1 <= d <= 12,
        is_encoding(c, s, d),
    ensures
        forall|i: int| 0 <= i < 256 ==> decoded_raw(s, d, i) == c[i],
{
    assert forall|i: int| 0 <= i < 256 implies decoded_raw(s, d, i) == c[i] by {
        let bits = coeff_bits_of(s, d, i);
        let cbits = Seq::new(d as nat, |b: int| bit_of(c[i] as int, b as nat));
        assert(bits =~= cbits) by {
            assert forall|b: int| 0 <= b < d implies bits[b] == cbits[b] by {
                assert(0 <= d * i + b < 256 * d) by (nonlinear_arith)
                    requires
                        0 <= i < 256,
                        0 <= b < d,
                ;
                assert(byte_bit(s, d * i + b) == coeff_bit(c, d, d * i + b));
                assert((d * i + b) / d == i && (d * i + b) % d == b) by (nonlinear_arith)
                    requires
                        0 <= i,
                        0 <= b < d,
                ;
            }
        }
        lemma_value_of_bits(c[i] as int, d as nat);
    }
}

/// Packing the unpacked raw group values reproduces the bytes exactly: a
/// packing is determined by its groups.
pub proof fn lemma_encode_of_decode(s: Seq<u8>, c: Seq<u16>, s2: Seq<u8>, d: int)
    requires
        1 <= d <= 12,
        s.len() == 32 * d,
        c.len() == 256,
        forall|i: int| 0 <= i < 256 ==> c[i] as int == decoded_raw(s, d, i),
        is_encoding(c, s2, d),
    ensures
        s2 == s,
{
    assert forall|t: int| 0 <= t < 256 * d implies byte_bit(s2, t) == byte_bit(s, t) by {
        let i = t / d;
        let b = t % d;
        assert(0 <= i < 256 && 0 <= b < d && t == d * i + b) by (nonlinear_arith)
            requires
                0 <= t < 256 * d,
                d >= 1,
                i == t / d,
                b == t % d,
        ;
        let bits = coeff_bits_of(s, d, i);
        assert forall|bb: int| 0 <= bb < d implies 0 <= #[trigger] bits[bb] <= 1 by {
            lemma_bit_of_zero_one(s[(d * i + bb) / 8] as int, ((d * i + bb) % 8) as nat);
        }
        lemma_bits_value_bit(bits, b as nat);
        assert(byte_bit(s2, t) == coeff_bit(c, d, t));
        assert(coeff_bit(c, d, t) == bit_of(c[i] as int, b as nat));
        assert(bits[b] == byte_bit(s, d * i + b));
    }
    assert forall|j: int| 0 <= j < 32 * d implies s2[j] == s[j] by {
        let jbits = Seq::new(8, |b: int| bit_of(s[j] as int, b as nat));
        let jbits2 = Seq::new(8, |b: int| bit_of(s2[j] as int, b as nat));
        assert(jbits =~= jbits2) by {
            assert forall|b: int| 0 <= b < 8 implies jbits[b] == jbits2[b] by {
                assert(0 <= 8 * j + b < 256 * d) by (nonlinear_arith)
                    requires
                        0 <= j < 32 * d,
                        0 <= b < 8,
                ;
                assert((8 * j + b) / 8 == j && (8 * j + b) % 8 == b) by (nonlinear_arith)
                    requires
                        0 <= j,
                        0 <= b < 8,
                ;
                assert(byte_bit(s2, 8 * j + b) == byte_bit(s, 8 * j + b));
            }
        }
        assert(pow2(8) == 256) by {
            lemma2_to64();
        }
        lemma_value_of_bits(s[j] as int, 8);
        lemma_value_of_bits(s2[j] as int, 8);
    }
    assert(s2 =~= s);
}

/// A packing is unique: two byte strings that both pack the same
/// coefficients are equal.
pub proof fn lemma_encoding_unique(c: Seq<u16>, s1: Seq<u8>, s2: Seq<u8>, d: int)
    requires
        1 <= d <= 12,
        is_encoding(c, s1, d),
        is_encoding(c, s2, d),
    ensures
        s1 == s2,
{
    assert forall|j: int| 0 <= j < 32 * d implies s1[j] == s2[j] by {
        let jbits1 = Seq::new(8, |b: int| bit_of(s1[j] as int, b as nat));
        let jbits2 = Seq::new(8, |b: int| bit_of(s2[j] as int, b as nat));
        assert(jbits1 =~= jbits2) by {
            assert forall|b: int| 0 <= b < 8 implies jbits1[b] == jbits2[b] by {
                assert(0 <= 8 * j + b < 256 * d) by (nonlinear_arith)
                    requires
                        0 <= j < 32 * d,
                        0 <= b < 8,
                ;
                assert((8 * j + b) / 8 == j && (8 * j + b) % 8 == b) by (nonlinear_arith)
                    requires
                        0 <= j,
                        0 <= b < 8,
                ;
                assert(byte_bit(s1, 8 * j + b) == coeff_bit(c, d, 8 * j + b));
                assert(byte_bit(s2, 8 * j + b) == coeff_bit(c, d, 8 * j + b));
            }
        }
        assert(pow2(8) == 256) by {
            lemma2_to64();
        }
        lemma_value_of_bits(s1[j] as int, 8);
        lemma_value_of_bits(s2[j] as int, 8);
    }
    assert(s1 =~= s2);
}

/// The raw group values of any `32 d`-byte string are below `2^d`.
pub proof fn lemma_decoded_raw_bound(s: Seq<u8>, d: int, i: int)
    requires
        1 <= d <= 12,
        s.len() == 32 * d,
        0 <= i < 256,
    ensures
        0 <= decoded_raw(s, d, i) < pow2(d as nat),
{
    let bits = coeff_bits_of(s, d, i);
    assert forall|bb: int| 0 <= bb < d implies 0 <= #[trigger] bits[bb] <= 1 by {
        lemma_bit_of_zero_one(s[(d * i + bb) / 8] as int, ((d * i + bb) % 8) as nat);
    }
    lemma_bits_value_bound(bits);
}

/// The prescribed lossy compression of a coefficient into `d` bits:
/// round(x * 2^d / q) mod 2^d.
pub open spec fn compressed(x: int, d: int) -> int {
    ((x * pow2(d as nat) + 1664) / 3329) % pow2(d as nat) as int
}

/// The approximate inverse: round(y * q / 2^d).
pub open spec fn decompressed(y: int, d: int) -> int {
    (y * 3329 + pow2((d - 1) as nat)) / pow2(d as nat) as int
}

/// A polynomial compressed coefficient-wise into `d` bits.
pub open spec fn compress_spec(a: Seq<u16>, d: int) -> Seq<u16> {
    Seq::new(256, |i: int| compressed(a[i] as int, d) as u16)
}

/// A polynomial decompressed coefficient-wise from `d` bits.
pub open spec fn decompress_spec(a: Seq<u16>, d: int) -> Seq<u16> {
    Seq::new(256, |i: int| decompressed(a[i] as int, d) as u16)
}

/// The 256 coefficients decoded from a `32 d`-byte packing.
pub open spec fn decoded_poly(s: Seq<u8>, d: int) -> Seq<u16> {
    Seq::new(256, |i: int| decoded_coeff(s, d, i) as u16)
}

/// Compress every coefficient of a polynomial into `d` bits.
pub fn compress_poly(a: &Vec<u16>, d: usize) -> (r: Vec<u16>)
    requires
        1 <= d <= 12,
        poly_wf(a@),
    ensures
        r@.len() == 256,
        forall|i: int| 0 <= i < 256 ==> r@[i] as int == compressed(a@[i] as int, d as int),
        forall|i: int| 0 <= i < 256 ==> (r@[i] as int) < pow2(d as nat),
        r@ == compress_spec(a@, d as int),
{
    let m = pow2_u16(d) as u32;
    proof {
        lemma2_to64();
        lemma_pow2_strictly_increases(0, d as nat);
    }
    let mut r: Vec<u16> = Vec::new();
    let mut i: usize = 0;
    while i < 256
        invariant
            1 <= d <= 12,
            poly_wf(a@),
            m == pow2(d as nat),
            2 <= m <= 4096,
            i <= 256,
            r@.len() == i,
            forall|j: int| 0 <= j < i ==> r@[j] as int == compressed(a@[j] as int, d as int),
            forall|j: int| 0 <= j < i ==> (r@[j] as int) < pow2(d as nat),
        decreases 256 - i,
    {
        let x = a[i] as u32;
        proof {
            crate::poly::lemma_mul_le(x as int, 3328, m as int, 4096);
        }
        let v: u32 = ((x * m + 1664) / 3329) % m;
        r.push(v as u16);
        i += 1;
    }
    proof {
        assert(r@ =~= compress_spec(a@, d as int));
    }
    r
}

/// Map `d`-bit values back to coefficients modulo q.
pub fn decompress_poly(a: &Vec<u16>, d: usize) -> (r: Vec<u16>)
    requires
        1 <= d <= 12,
        a@.len() == 256,
        forall|i: int| 0 <= i < 256 ==> (a@[i] as int) < pow2(d as nat),
    ensures
        r@.len() == 256,
        forall|i: int| 0 <= i < 256 ==> r@[i] as int == decompressed(a@[i] as int, d as int),
        poly_wf(r@),
        r@ == decompress_spec(a@, d as int),
{
    let m = pow2_u16(d) as u32;
    let half = pow2_u16(d) as u32 / 2;
    proof {
        lemma2_to64();
        lemma_pow2_strictly_increases(0, d as nat);
        lemma_pow2_unfold(d as nat);
        assert(half == pow2((d - 1) as nat));
    }
    let mut r: Vec<u16> = Vec::new();
    let mut i: usize = 0;
    while i < 256
        invariant
            1 <= d <= 12,
            a@.len() == 256,
            forall|ii: int| 0 <= ii < 256 ==> (a@[ii] as int) < pow2(d as nat),
            m == pow2(d as nat),
            2 <= m <= 4096,
            half == pow2((d - 1) as nat),
            half * 2 == m,
            i <= 256,
            r@.len() == i,
            forall|j: int| 0 <= j < i ==> r@[j] as int == decompressed(a@[j] as int, d as int),
            forall|j: int| 0 <= j < i ==> r@[j] < 3329,
        decreases 256 - i,
    {
        let y = a[i] as u32;
        proof {
            assert(y < m);
            crate::poly::lemma_mul_le(y as int, 4095, 3329, 3329);
        }
        let v: u32 = (y * 3329 + half) / m;
        proof {
            assert((y * 3329 + half) < 3329 * m) by (nonlinear_arith)
                requires
                    y < m,
                    2 * half == m,
                    2 <= m <= 4096,
            ;
            lemma_multiply_divide_lt((y * 3329 + half) as int, m as int, 3329);
        }
        r.push(v as u16);
        i += 1;
    }
    proof {
        assert(r@ =~= decompress_spec(a@, d as int));
    }
    r
}

} // verus!
