//! KGRTC: a key-generated reversible transformer block cipher, with its
//! structural analyzer.

pub mod gf;
pub mod kdf;
pub mod permutation;
pub mod sbox;
pub mod transformer;
pub mod topology;
pub mod generation;
pub mod cipher;
pub mod span;
pub mod analyzer;
pub mod exact;
pub mod sampling;
pub mod affine;
