//! Epoch-transition reconstruction for a BLS-based proof-of-stake chain.
//!
//! The crate decodes the binary extension field embedded in block headers
//! (a vanity prefix followed by a recursive length-prefixed list encoding),
//! reconstructs the validator-set change for each epoch together with the
//! aggregated seals attesting to it, unpacks fixed-width participation
//! bitmaps, and assembles an ordered, internally consistent sequence of
//! epoch transitions ready for downstream proof generation.

pub mod bitmap;
pub mod builder;
pub mod errors;
pub mod rlp;
pub mod types;
