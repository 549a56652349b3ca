//! Why slicing can fail.

use vstd::prelude::*;

verus! {

/// The ways in which the kernel refuses or abandons work.
#[derive(Clone, Copy, Debug, PartialEq, Eq, Structural)]
pub enum SliceError {
    /// The mesh has no vertex, so it has no bounding box.
    EmptyMesh,
    /// The distance between cutting planes is zero or negative.
    NonPositiveStep,
    /// A face names a vertex the mesh does not have, or a coordinate is too
    /// large in magnitude for the kernel's arithmetic.
    InvalidMesh,
    /// In some raster column the signed crossings of the contour do not
    /// cancel: the contour handed to the filler is not closed.
    WindingResidual,
}

impl SliceError {
    /// Tells whether the error blames the caller's input rather than an
    /// inconsistency found while working.
    pub fn is_input_error(&self) -> (b: bool)
        ensures
            b == !(*self is WindingResidual),
    {
        match self {
            SliceError::WindingResidual => false,
            _ => true,
        }
    }
}

} // verus!
