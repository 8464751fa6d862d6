//! Core data structures and index logic for a kernel-independent fast
//! multipole method (KiFMM): Morton-keyed linear octrees, transfer-vector
//! enumeration, and the layout maps behind the FFT- and SVD-accelerated
//! multipole-to-local translation operators.
use vstd::prelude::*;

pub mod fft;
pub mod fmm;
pub mod morton;
pub mod svd;
pub mod sort;
pub mod surface;
pub mod transfer_vector;
pub mod tree;

verus! {

/// A configuration error: construction reports it to the caller and fails
/// cleanly, returning no partial value.
#[derive(Clone, Copy, PartialEq, Eq, Structural, Debug)]
pub enum ConfigError {
    /// The input point set is empty.
    EmptyPointSet,
    /// The requested uniform depth exceeds what the key encoding supports.
    InvalidDepth,
    /// The adaptive refinement threshold is zero.
    InvalidThreshold,
    /// The requested compression rank is zero.
    InvalidRank,
    /// The charge dictionary's key set is not a permutation of the point indices.
    ChargeMismatch,
}

/// Number of points on the cube-like equivalent/check surface of a given
/// expansion order: `6 * (order - 1)^2 + 2`.
pub open spec fn spec_ncoeffs(order: int) -> int {
    6 * (order - 1) * (order - 1) + 2
}

/// Length of the multipole/local coefficient vector for an expansion order.
pub fn ncoeffs(order: usize) -> (n: usize)
    requires
        1 <= order,
        spec_ncoeffs(order as int) <= usize::MAX,
    ensures
        n == spec_ncoeffs(order as int),
{
    let m = order - 1;
    proof {
        assert(6 * m <= 6 * m * m + 2 && 6 * m * m <= 6 * m * m + 2) by (nonlinear_arith);
    }
    6 * m * m + 2
}

} // verus!
