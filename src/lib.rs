//! Shuffling of dense row-major arrays along one axis, in place.
//!
//! The groups of elements that share an index on the shuffled axis are moved
//! as whole blocks, so the order of elements along every other axis is kept.
use vstd::prelude::*;

pub mod array;
pub mod engine;
pub mod random;
pub mod shuffle_inplace;

pub use array::NdArray;

verus! {

/// Why a shuffle request was refused.
#[derive(Debug, Clone, Copy, PartialEq, Eq, Structural)]
pub enum NdArrayShuffleError {
    /// The array's memory is not in standard row-major order.
    NonStandardLayout,
    /// The requested axis does not exist; carries the requested index.
    InvalidAxis(usize),
}

} // verus!
