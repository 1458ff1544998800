//! The three standard parameter sets and their derived byte sizes.
use vstd::prelude::*;

verus! {

/// Shared-secret length in bytes, the same for every parameter set.
pub const SHARED_SECRET_SIZE: usize = 32;

/// Key-generation seed length in bytes (32 bytes `d` plus 32 bytes `z`).
pub const KEY_GEN_SEED_SIZE: usize = 64;

/// Encapsulation seed length in bytes.
pub const ENCAPS_SEED_SIZE: usize = 32;

/// One of the three standard ML-KEM security categories. The set fixes the
/// module dimension `k`, the two noise widths `eta1`/`eta2`, the ciphertext
/// compression widths `du`/`dv`, and with them every derived byte length.
#[derive(Copy, Clone, Debug, PartialEq, Eq, Structural)]
pub enum ParamSet {
    MlKem512,
    MlKem768,
    MlKem1024,
}

impl ParamSet {
    /// Module dimension: the public matrix is `k x k` polynomials.
    pub open spec fn k_spec(self) -> int {
        match self {
            ParamSet::MlKem512 => 2,
            ParamSet::MlKem768 => 3,
            ParamSet::MlKem1024 => 4,
        }
    }

    pub fn k(&self) -> (r: usize)
        ensures
            r == self.k_spec(),
    {
        match self {
            ParamSet::MlKem512 => 2,
            ParamSet::MlKem768 => 3,
            ParamSet::MlKem1024 => 4,
        }
    }

    /// Noise width for the secret and error vectors drawn at key generation
    /// and for the fresh vector drawn at encryption.
    pub open spec fn eta1_spec(self) -> int {
        match self {
            ParamSet::MlKem512 => 3,
            ParamSet::MlKem768 => 2,
            ParamSet::MlKem1024 => 2,
        }
    }

    pub fn eta1(&self) -> (r: usize)
        ensures
            r == self.eta1_spec(),
    {
        match self {
            ParamSet::MlKem512 => 3,
            ParamSet::MlKem768 => 2,
            ParamSet::MlKem1024 => 2,
        }
    }

    /// Noise width for the error terms added to the ciphertext components.
    pub open spec fn eta2_spec(self) -> int {
        2
    }

    pub fn eta2(&self) -> (r: usize)
        ensures
            r == self.eta2_spec(),
    {
        2
    }

    /// Compression bit-width for the ciphertext vector component `u`.
    pub open spec fn du_spec(self) -> int {
        match self {
            ParamSet::MlKem512 => 10,
            ParamSet::MlKem768 => 10,
            ParamSet::MlKem1024 => 11,
        }
    }

    pub fn du(&self) -> (r: usize)
        ensures
            r == self.du_spec(),
    {
        match self {
            ParamSet::MlKem512 => 10,
            ParamSet::MlKem768 => 10,
            ParamSet::MlKem1024 => 11,
        }
    }

    /// Compression bit-width for the ciphertext ring component `v`.
    pub open spec fn dv_spec(self) -> int {
        match self {
            ParamSet::MlKem512 => 4,
            ParamSet::MlKem768 => 4,
            ParamSet::MlKem1024 => 5,
        }
    }

    pub fn dv(&self) -> (r: usize)
        ensures
            r == self.dv_spec(),
    {
        match self {
            ParamSet::MlKem512 => 4,
            ParamSet::MlKem768 => 4,
            ParamSet::MlKem1024 => 5,
        }
    }

    /// Public (encapsulation) key length: `384 k` bytes of encoded vector
    /// followed by the 32-byte matrix seed.
    pub open spec fn pk_size_spec(self) -> int {
        384 * self.k_spec() + 32
    }

    pub fn pk_size(&self) -> (r: usize)
        ensures
            r == self.pk_size_spec(),
    {
        384 * self.k() + 32
    }

    /// Private (decapsulation) key length: the encoded secret vector, a full
    /// copy of the public key, the public-key hash, and the rejection seed.
    pub open spec fn sk_size_spec(self) -> int {
        768 * self.k_spec() + 96
    }

    pub fn sk_size(&self) -> (r: usize)
        ensures
            r == self.sk_size_spec(),
    {
        768 * self.k() + 96
    }

    /// Ciphertext length: `k` polynomials compressed to `du` bits each plus
    /// one polynomial compressed to `dv` bits.
    pub open spec fn ct_size_spec(self) -> int {
        32 * (self.du_spec() * self.k_spec() + self.dv_spec())
    }

    pub fn ct_size(&self) -> (r: usize)
        ensures
            r == self.ct_size_spec(),
    {
        32 * (self.du() * self.k() + self.dv())
    }
}

} // verus!
