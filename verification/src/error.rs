//! Errors that planning can end in.

use vstd::prelude::*;

verus! {

/// Why a request does not fit the shapes it was given. `op` names the
/// operation or kernel that refused.
#[derive(Debug)]
pub enum ShapeError {
    /// A count does not fit the 32-bit words that kernels take.
    TooLong { op: &'static str, len: usize },
    /// Two operands that must have the same length do not.
    OperandLength { op: &'static str, lhs: usize, rhs: usize },
    /// A buffer does not have the length that the operation writes or reads.
    BufferLength { op: &'static str, len: usize, expected: usize },
    /// There is nothing to work on: rank zero, no elements or no operands.
    Empty { op: &'static str },
    /// Two operands that must have the same rank do not.
    RankMismatch { op: &'static str, lhs: usize, rhs: usize },
    /// The rank is not the one that the operation works on.
    WrongRank { op: &'static str, rank: usize, expected: usize },
    /// The rank exceeds what the kernel supports.
    RankAbove { op: &'static str, rank: usize, limit: usize },
    /// An axis that the shape does not have.
    AxisOutOfRange { op: &'static str, axis: usize, rank: usize },
    /// Two extents that must agree do not.
    ExtentMismatch { op: &'static str, axis: usize, lhs: usize, rhs: usize },
    /// An operand of a list disagrees with the first one in rank.
    ListRank { op: &'static str, index: usize, rank: usize, expected: usize },
    /// An operand of a list disagrees with the first one in an extent.
    ListExtent { op: &'static str, index: usize, axis: usize, extent: usize, expected: usize },
    /// A window that leaves the axis it is cut from.
    WindowOutOfRange { op: &'static str, start: usize, len: usize, extent: usize },
    /// A view with another number of elements than the tensor has.
    CountMismatch { op: &'static str, from: usize, to: usize },
    /// Two tensors that must have the same shape do not.
    ShapesDiffer { op: &'static str },
    /// Channel count and groups do not fit together.
    Groups { op: &'static str, channels: usize, per_group: usize, groups: usize },
    /// A count must be positive.
    MustBePositive { op: &'static str },
    /// The padded input is shorter than the kernel window.
    WindowTooWide { op: &'static str, padded: usize, window: usize },
    /// A size exceeds a compile-time limit of a kernel.
    AboveLimit { op: &'static str, size: usize, limit: usize },
    /// A length must be a positive multiple of another.
    NotMultiple { op: &'static str, len: usize, unit: usize },
    /// Differentiation needs a loss with exactly one element.
    NotScalar { numel: usize },
}

/// Errors of the planner. Faults of the device itself never arise here.
#[derive(Debug)]
pub enum CudaError {
    /// The kernel is missing from the loaded module.
    KernelNotFound(&'static str),
    /// An operation or element type that the backend does not offer.
    Unsupported(&'static str),
    /// Operands that do not fit together.
    Shape(ShapeError),
    /// An inconsistency inside the backend.
    Internal(&'static str),
}

} // verus!
