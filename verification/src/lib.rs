//! Sparse linear algebra and an EigenTrust fixed-point solver.
//!
//! Global reputation scores are computed over a network of peers from
//! pairwise local trust ratings and a pretrust (seed) distribution, by
//! power iteration with damping.  All sparse structures carry their scalar
//! values as raw IEEE 754 binary64 bit patterns (`u64`); the verifier has
//! no theory of floating point, so the arithmetic itself is supplied by the
//! caller as closures, while every structural step — index merges,
//! transposition, sorting, dimension bookkeeping, the convergence protocol
//! and the error discipline — is specified and proved here.

pub mod fbits;
pub mod entry;
pub mod util;
pub mod vector;
pub mod matrix;
pub mod errors;
pub mod solver;
pub mod localtrust;
pub mod peers;
