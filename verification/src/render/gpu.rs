//! The records that go to the GPU, field by field, and their sizes.

use vstd::prelude::*;

use crate::scalar::Scalar;

verus! {

/// Bytes of one `GpuVertex`.
pub const VERTEX_BYTES: u64 = 20;

/// Bytes of one index.
pub const INDEX_BYTES: u64 = 4;

/// Bytes of one `GpuInstance`.
pub const INSTANCE_BYTES: u64 = 56;

/// Bytes of one `GpuParamInstance`.
pub const PARAM_INSTANCE_BYTES: u64 = 52;

/// Bytes of one `GpuDrawIndexedIndirect`.
pub const INDIRECT_BYTES: u64 = 20;

/// Bytes of one `GpuClip` record, padding included.
pub const CLIP_BYTES: u64 = 48;

/// Position, outward silhouette normal (zero for interior vertices), coverage.
#[derive(Clone, Copy, Debug, PartialEq, Eq)]
pub struct GpuVertex {
    pub position: [Scalar; 2],
    pub normal: [Scalar; 2],
    pub coverage: Scalar,
}

/// 2x2 linear part, translation + z + clip pack, RGBA8 tint, brush params
/// (gradient geometry in local space), packed brush meta.
#[derive(Clone, Copy, Debug, PartialEq, Eq)]
pub struct GpuInstance {
    pub linear: [Scalar; 4],
    pub translation_z: [Scalar; 4],
    pub color: [u8; 4],
    pub brush_params: [Scalar; 4],
    pub brush_meta: Scalar,
}

/// One analytic clip entry: inverse world transform of the clip entity plus
/// distance-field parameters. A circle is a rounded rect with zero
/// half-extents.
#[derive(Clone, Copy, Debug, PartialEq, Eq)]
pub struct GpuClip {
    pub inv_linear: [Scalar; 4],
    pub inv_translation: [Scalar; 2],
    pub half_extents: [Scalar; 2],
    pub radius: Scalar,
}

/// The tessellated-instance fields plus the primitive parameters.
#[derive(Clone, Copy, Debug, PartialEq, Eq)]
pub struct GpuParamInstance {
    pub linear: [Scalar; 4],
    pub translation_z: [Scalar; 4],
    pub color: [u8; 4],
    pub params: [Scalar; 4],
}

/// The arguments of one indirect indexed draw.
#[derive(Clone, Copy, Debug, PartialEq, Eq, Structural)]
pub struct GpuDrawIndexedIndirect {
    pub index_count: u32,
    pub instance_count: u32,
    pub first_index: u32,
    pub base_vertex: i32,
    pub first_instance: u32,
}

/// A half-open range of `u32`.
#[derive(Clone, Copy, Debug, PartialEq, Eq, Structural)]
pub struct Span {
    pub start: u32,
    pub end: u32,
}


/// Records are packed without gaps: four bytes for every number and one for
/// every channel of a colour, but for three unused numbers at the end of a clip.
pub proof fn lemma_records_are_packed()
    ensures
        VERTEX_BYTES == 4 * (2 + 2 + 1),
        INDEX_BYTES == 4,
        INSTANCE_BYTES == 4 * (4 + 4) + 4 + 4 * (4 + 1),
        PARAM_INSTANCE_BYTES == 4 * (4 + 4) + 4 + 4 * 4,
        INDIRECT_BYTES == 4 * 5,
        CLIP_BYTES == 4 * (4 + 2 + 2 + 1) + 4 * 3,
{
}

} // verus!
