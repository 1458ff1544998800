//! The encoding layer on concrete values: exact packing, the proved
//! round-trip in both directions, and the compression formulas.
use mlkem::codec::{byte_decode, byte_encode, compress_poly, decompress_poly};

#[test]
fn encode_decode_roundtrip_all_widths() {
    for d in 1..=12usize {
        let limit = 1u16 << d;
        let mut coeffs: Vec<u16> = Vec::new();
        for i in 0..256u32 {
            let mut v = (i * 2654435761u32 % limit as u32) as u16;
            if d == 12 && v >= 3329 {
                v %= 3329;
            }
            coeffs.push(v);
        }
        let packed = byte_encode(&coeffs, d);
        assert_eq!(packed.len(), 32 * d);
        let unpacked = byte_decode(&packed, d);
        assert_eq!(unpacked, coeffs);
        let repacked = byte_encode(&unpacked, d);
        assert_eq!(repacked, packed);
    }
}

#[test]
fn encode_packs_little_endian() {
    // 12-bit packing: coefficients 0x123 and 0x456 become three bytes
    // 0x23, 0x61, 0x45 (low bits first within each byte).
    let mut coeffs = vec![0u16; 256];
    coeffs[0] = 0x123;
    coeffs[1] = 0x456;
    let packed = byte_encode(&coeffs, 12);
    assert_eq!(packed[0], 0x23);
    assert_eq!(packed[1], 0x61);
    assert_eq!(packed[2], 0x45);
    assert_eq!(packed[3], 0x00);
}

#[test]
fn compress_rounds_to_nearest() {
    // compress(x, d) = round(x * 2^d / 3329) mod 2^d
    let mut coeffs = vec![0u16; 256];
    coeffs[0] = 0;
    coeffs[1] = 1664; // just below half: rounds to 2^d / 2
    coeffs[2] = 1665; // just above half
    coeffs[3] = 3328; // almost q: wraps to 0 at every width
    let c1 = compress_poly(&coeffs, 1);
    assert_eq!(c1[0], 0);
    assert_eq!(c1[1], 1); // round(1664 * 2 / 3329) = round(0.9997) = 1
    assert_eq!(c1[2], 1);
    assert_eq!(c1[3], 0); // round(3328 * 2 / 3329) = 2 = 0 mod 2
    let c10 = compress_poly(&coeffs, 10);
    assert_eq!(c10[0], 0);
    assert_eq!(c10[1], 512); // round(1664 * 1024 / 3329) = 512
    assert_eq!(c10[3], 0); // round(3328 * 1024 / 3329) = 1024 = 0 mod 2^10
}

#[test]
fn decompress_approximately_inverts_compress() {
    // Lossy by design: no exact round-trip, but the recovered coefficient
    // must be within q / 2^(d+1) (rounded up) of the original, modulo q.
    for d in [1usize, 4, 5, 10, 11] {
        let mut coeffs: Vec<u16> = Vec::new();
        for i in 0..256u32 {
            coeffs.push((i * 13) as u16 % 3329);
        }
        let compressed = compress_poly(&coeffs, d);
        let recovered = decompress_poly(&compressed, d);
        let bound = (3329 + (1 << (d + 1)) - 1) / (1 << (d + 1)) as u32;
        for i in 0..256usize {
            let a = coeffs[i] as i32;
            let b = recovered[i] as i32;
            let diff = (a - b).rem_euclid(3329);
            let dist = diff.min(3329 - diff);
            assert!(dist as u32 <= bound, "width {}: {} vs {}", d, a, b);
        }
    }
}
