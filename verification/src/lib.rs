//! Typed access to N-dimensional array buffers owned by an untyped array
//! runtime.
//!
//! The runtime stores an array as raw bytes together with metadata: a numeric
//! element-type tag, a shape, and per-axis byte strides.  Nothing about that
//! state is statically typed, so every typed view of it must be justified at
//! runtime: the requested element type's tag is compared against the buffer's
//! tag, and the byte strides are checked to be exact multiples of the element
//! size, before any element is decoded.  This crate proves that discipline
//! correct: a successfully constructed view reads and writes exactly the bytes
//! that the array's geometry assigns to each multi-index.

pub mod array;
pub mod error;
pub mod geom;
pub mod types;

pub use array::ArrayViewD;
pub use array::ArrayViewMutD;
pub use array::FlatSliceMutD;
pub use array::NpyOrder;
pub use array::PyArray;
pub use error::ArrayCastError;
pub use types::ElemTag;
pub use types::TypeNum;
