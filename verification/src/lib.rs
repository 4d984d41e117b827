//! Null-aware, columnar compute kernels: packed-bit validity buffers,
//! broadcasting elementwise evaluation, first-occurrence detection, and
//! offsets-encoded list and string kernels.

pub mod bits;
pub mod broadcast;
pub mod column;
pub mod first_occurrence;
pub mod list;
pub mod list_column;
pub mod split;
pub mod strip;
pub mod substring;

use vstd::prelude::*;

verus! {

/// Errors surfaced by the kernel layer. Per-row missing data is never an
/// error; it is encoded as a missing result for that row only.
#[derive(Clone, Copy, Debug, PartialEq, Eq, Structural)]
pub enum KernelError {
    /// Broadcasting operands' lengths are incompatible.
    ShapeMismatch,
    /// A required scalar argument is missing or has the wrong length.
    InvalidArgument,
    /// A kernel was invoked on a dtype it has no strategy for.
    UnsupportedType,
    /// An index was out of bounds under an error-on-out-of-bounds contract.
    OutOfBounds,
}

} // verus!
