//! Split inference with an untrusted accelerator.
//!
//! The trusted side draws an orthogonal token-axis mask `A`, hands `U = A·H` to an
//! offload engine and recovers `H·W = Aᵀ·(U·W)` from the answer. The library holds the
//! masks, the shield rows, the two attention protocols, the executors that tie them
//! together, and the bookkeeping around them (profiles, snapshots, embedding tables,
//! tenants).
//!
//! Everything numeric is written over [`scalar::Scalar`], so that the same verified code
//! runs on machine floats and on exact integers; what holds only of exact arithmetic is
//! proved over the reals.

pub mod attention;
pub mod attestation;
pub mod calls;
pub mod cascade;
pub mod dct4;
pub mod equivariance;
pub mod error;
pub mod exact;
pub mod executor;
pub mod freshness;
pub mod gaussian;
pub mod haar;
pub mod hd3;
pub mod householder;
pub mod integrity;
pub mod mask;
pub mod matrix;
pub mod out_attn_mult;
pub mod pairing;
pub mod passage;
pub mod ple;
pub mod pow2;
pub mod profile;
pub mod recovery;
pub mod retrieval;
pub mod rng;
pub mod scalar;
pub mod service;
pub mod shield;
pub mod shielding;
pub mod sim;
pub mod snapshot;
pub mod softmax;
pub mod soundness;
pub mod substrate;
pub mod table;
pub mod tenant;
pub mod text;
pub mod two_party_service;
pub mod unblinding;
pub mod walsh;
pub mod weighting;
