//! The error kinds shared by the sparse operations and the solver.

use vstd::prelude::*;

verus! {

/// Everything that can go wrong in the library.  Operations return a
/// kind rather than a message; callers render them as they see fit.
#[derive(Clone, Copy, Debug, PartialEq, Eq, Structural)]
pub enum SparseError {
    /// A scalar parameter (the damping factor, a scale factor) is NaN.
    InvalidParameter,
    /// The trust matrix has zero dimension.
    EmptyInput,
    /// Two structures of incompatible declared dimension were combined.
    DimensionMismatch,
    /// A vector whose entries sum to zero cannot be canonicalized.
    ZeroSumVector,
    /// The iteration budget ran out before the joint convergence and
    /// flat-tail condition was met.
    NonConvergence,
    /// A peer name that the peer map has never seen.
    UnknownPeer,
}

} // verus!
