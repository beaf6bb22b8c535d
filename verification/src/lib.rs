//! Kernel-independent fast multipole method: the verified octree core.
//!
//! The library holds the integer logic of a single-node KiFMM engine: the
//! Morton key codec, the octree builder (uniform and adaptive, with 2:1
//! balancing), the U/V/W/X interaction lists, the equivalent-surface grid
//! combinatorics, expansion metadata, and the two-pass evaluation schedule.
//! Floating-point work (kernel evaluation, dense linear algebra, FFTs) lives
//! outside the library and consumes the structures built here.

use vstd::prelude::*;

pub mod adaptive;
pub mod interaction;
pub mod m2l;
pub mod morton;
pub mod schedule;
pub mod surface;
pub mod tree;

verus! {

/// Everything that can go wrong while configuring or precomputing an FMM.
///
/// Construction surfaces all of these; evaluation is infallible once
/// construction has succeeded.
#[derive(Clone, Copy, Debug, PartialEq, Eq, Structural)]
pub enum FmmError {
    /// Builder parameters out of range.
    InvalidConfig,
    /// The input point cloud is empty.
    NoPoints,
    /// Expansion order below the smallest usable order.
    InvalidOrder,
    /// Operator precomputation met a Gram matrix whose singular values all vanish.
    SingularOperator,
    /// A dense linear-algebra call failed.
    BlasError,
    /// A fast-Fourier-transform call failed.
    FftError,
    /// A requested combination is not supported.
    Unsupported,
}

/// True exactly when the builder parameters are in range: expansion order at
/// least 2, at least one point per leaf allowed, and a depth the key codec
/// can express.
pub open spec fn valid_parameters(expansion_order: usize, n_crit: usize, depth: u64) -> bool {
    expansion_order >= 2 && n_crit >= 1 && depth <= 16
}

/// Validate the builder parameters: `expansion_order >= 2`, `n_crit >= 1`,
/// `depth <= 16`; any other combination is rejected as `InvalidConfig`.
pub fn validate_parameters(expansion_order: usize, n_crit: usize, depth: u64) -> (r: Result<
    (),
    FmmError,
>)
    ensures
        r is Ok <==> valid_parameters(expansion_order, n_crit, depth),
        r is Err ==> r == Result::<(), FmmError>::Err(FmmError::InvalidConfig),
{
    if expansion_order >= 2 && n_crit >= 1 && depth <= 16 {
        Ok(())
    } else {
        Err(FmmError::InvalidConfig)
    }
}

} // verus!
