//! BLS signatures on BLS12-381 with threshold keys (Shamir's Secret Sharing)
//! and proxy re-signatures.
//!
//! Scalars and group elements are held in their canonical byte encodings.
//! Contracts are stated over a mathematical model: a scalar is an integer
//! below the group order, and a group element is the multiple of the fixed
//! generator that it is.

pub mod bls;
mod bytes;
pub mod curve;
pub mod field;
pub mod interpolation;
pub mod keys;
pub mod scalar;
pub mod theorems;
pub mod traits;
pub mod utils;

pub use bls::{Signature, VerificationResult};
pub use curve::{G1Point, G2Point};
pub use keys::{PrivateKey, PublicKey};
pub use scalar::Scalar;
pub use traits::{ThresholdKey, ThresholdSignature};
