//! Errors reported by the library.
use vstd::prelude::*;

verus! {

/// Why storage arrays, an axis or an extent are rejected.
#[derive(Clone, Copy, Debug, PartialEq, Eq, Structural)]
pub enum StorageFault {
    /// The lane count plus one does not fit in `usize`.
    ExtentOverflow,
    /// The offset array does not hold one entry more than there are lanes.
    OffsetsLength,
    /// Two parallel arrays differ in length.
    LengthMismatch,
    /// The offsets do not start at zero or do not end at the entry count.
    OffsetsEndpoints,
    /// The offsets decrease somewhere.
    OffsetsDecreasing,
    /// A row index is out of range.
    RowIndexOutOfRange,
    /// A column index is out of range.
    ColumnIndexOutOfRange,
    /// The indices within a lane are not strictly increasing.
    IndicesNotIncreasing,
    /// An axis is not below the rank of the array.
    AxisOutOfBounds,
    /// A reduction without an empty value met an axis of length zero.
    EmptyAxis,
    /// A coordinate plan is applied to an array of another shape than the
    /// one it was built for.
    PlanLayout,
    /// A batch of matrices to transpose does not hold exactly the samples
    /// its matrix count and extents call for.
    SourceLength,
    /// The storage for a transposed batch does not hold exactly the samples
    /// of the batch.
    DestinationLength,
}

/// Why an argument of a window operation is rejected.
#[derive(Clone, Copy, Debug, PartialEq, Eq, Structural)]
pub enum InputFault {
    /// The window has no axis, or the array rank is not the window rank plus
    /// the batch and channel axes.
    WindowRank,
    /// The per-axis window arrays differ in length, or a kernel, stride or
    /// dilation entry is zero.
    WindowParameter,
    /// A padded input extent is shorter than the dilated kernel along it.
    WindowExtent,
    /// Maximum pooling backward was asked for without the forward input.
    MissingForwardInput,
}

/// Which count of a window operation exceeds `usize::MAX`.
#[derive(Clone, Copy, Debug, PartialEq, Eq, Structural)]
pub enum OverflowFault {
    /// A padded input extent or a dilated kernel extent.
    WindowExtent,
    /// The number of window positions.
    OutputLocations,
    /// The number of kernel taps.
    KernelVolume,
    /// The number of channels times the number of kernel taps.
    ChannelKernel,
    /// The number of samples of one matrix.
    MatrixElements,
    /// The number of samples of a batch of matrices.
    BatchElements,
}

/// Errors of the library's fallible operations.
#[allow(inconsistent_fields)]
#[derive(Clone, Debug, PartialEq, Eq)]
pub enum LetoError {
    /// Storage arrays or an axis violate an operation's invariants.
    StorageError { reason: StorageFault },
    /// Two shapes that must agree differ.
    ShapeMismatch { lhs: Vec<usize>, rhs: Vec<usize> },
    /// A coordinate names no element of an array of `shape`.
    OutOfBounds { index: Vec<usize>, shape: Vec<usize> },
    /// An argument is outside what the operation accepts.
    InvalidInput { reason: InputFault },
    /// A count derived from the arguments exceeds `usize::MAX`.
    Overflow { reason: OverflowFault },
}

/// The one-axis shape `[extent]`.
pub fn extent(n: usize) -> (r: Vec<usize>)
    ensures
        r@ == seq![n],
{
    let mut r: Vec<usize> = Vec::new();
    r.push(n);
    r
}

} // verus!
