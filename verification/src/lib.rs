//! Offline level-of-detail precomputation for Gaussian-splatting scenes.
//!
//! A scene is an ordered collection of splats: point primitives carrying a
//! position, a surface normal, a base color, higher-order spherical-harmonic
//! color coefficients, an opacity, an anisotropic scale, and an orientation
//! quaternion. This library derives a chain of progressively coarser splat
//! sets from a full-resolution one: each level is split into spatial clusters
//! and every cluster is merged into a single representative splat.
//!
//! All quantities are fixed-point integers: a real value `v` is stored as the
//! integer nearest `v * ONE`. Conversion from and to the on-disk floating
//! point form happens outside this crate; the pipeline itself is exact
//! integer arithmetic, which is what the contracts in this crate speak about.

use vstd::prelude::*;

pub mod gaussian;
pub mod lod;
pub mod math;
pub mod merge;
pub mod partition;
pub mod scene;

verus! {

/// Fixed-point unit: the integer that stands for the real number one.
pub const ONE: i64 = 65536;

/// Magnitude bound on every stored component, in fixed-point units.
pub const C_MAX: i64 = 1099511627776;

/// Everything that can go wrong inside the pipeline.
///
/// `MissingAttributeError` and `ValueOutOfRangeError` are input errors,
/// `EmptyInputError` and `DegenerateGeometryError` are geometry errors, and
/// `EmptyClusterError` is an internal invariant violation: a cluster handed
/// to the merger can never be empty when it came from the partitioner.
/// Persistence failures belong to the storage layer outside this crate.
#[derive(Clone, Copy, Debug, PartialEq, Eq, Structural)]
pub enum PrecomputeError {
    EmptyInputError,
    DegenerateGeometryError,
    EmptyClusterError,
    MissingAttributeError,
    ValueOutOfRangeError,
}

} // verus!
