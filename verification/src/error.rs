use vstd::prelude::*;

verus! {

/// Errors raised while constructing foreign arrays or casting them to typed
/// views.  Every fallible operation of this crate returns one of these as a
/// value; none of them panics.
#[derive(Clone, Copy, Debug, PartialEq, Eq, Structural)]
pub enum ArrayCastError {
    /// Nested construction input was not rectangular: at nesting depth
    /// `depth` (1 for the outermost axis) some sibling sequence's length
    /// differed from the trailing sibling's length.
    FromVec { depth: usize },
    /// The requested static element type's tag disagrees with the array's
    /// runtime tag.  `expected` is the tag of the requested type, `found`
    /// the tag stored in the array's metadata.
    ToRust { expected: i32, found: i32 },
    /// A byte stride reported by the array's metadata is not an exact
    /// multiple of the requested element's size.
    StrideMismatch { stride: isize, elem_size: usize },
    /// The buffer is not contiguous in the trivial row-major sense, which
    /// the flat-slice accessors require.
    NotContiguous,
    /// The runtime cannot hold a buffer of the requested extent (its byte
    /// size does not fit in the address space), or the supplied buffer does
    /// not match the requested geometry.
    AllocationFailed,
}

} // verus!
