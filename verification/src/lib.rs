//! ML-KEM: a module-lattice key-encapsulation mechanism.
//!
//! The crate implements the three standard parameter sets (512/768/1024):
//! polynomial arithmetic over Z_q[X]/(X^256+1) with a number-theoretic
//! transform, deterministic seed expansion into uniform and centered-binomial
//! ring elements, bit-packing and lossy coefficient compression, the
//! module-lattice public-key encryption scheme built from those layers, and
//! the Fujisaki-Okamoto style KEM wrapper with implicit rejection and the
//! key/ciphertext validation predicates. The SHA3/SHAKE hash primitives are
//! supplied by an outside crate behind trusted declarations; everything else
//! is verified.

pub mod params;
pub mod hash;
pub mod bytes;
pub mod poly;
pub mod codec;
pub mod sample;
pub mod pke;
pub mod kem;
