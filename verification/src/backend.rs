//! The plain data that engine iterations exchange when they are swapped at run
//! time.

use vstd::prelude::*;

use crate::path::{LinearRgba, PathCommand, PathStyle};
use crate::scalar::Scalar;

verus! {

/// Stable handle to uploaded geometry; meaningless across runs.
#[derive(Clone, Copy, Debug, PartialEq, Eq, Hash, Structural)]
pub struct GeometryId(pub u32);

/// An instance whose topology is unchanged since upload; the transform is a
/// column-major 4x4 matrix.
#[derive(Clone, Copy, Debug, PartialEq, Eq)]
pub struct VectorInstance {
    pub geometry: GeometryId,
    pub transform: [Scalar; 16],
    pub color: LinearRgba,
}

/// A path whose geometry changed this frame.
pub struct DynamicPath {
    pub commands: Vec<PathCommand>,
    pub transform: [Scalar; 16],
    pub style: PathStyle,
}

} // verus!
