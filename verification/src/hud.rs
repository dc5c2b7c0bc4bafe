//! The authored components: shapes, parametric primitives, clip regions, and
//! the flat transform that places them.

use vstd::prelude::*;

use crate::path::{LinearRgba, PathCommand, PathStyle, Point};
use crate::scalar::Scalar;

verus! {

/// Flat 2D transform for HUD elements. Entities animated through it never
/// dirty the transform hierarchy; where a hierarchical transform is present
/// too, this one wins.
#[derive(Clone, Copy, Debug, PartialEq, Eq)]
pub struct HudTransform {
    pub translation: [Scalar; 3],
    /// Rotation around Z in radians.
    pub rotation: Scalar,
    pub scale: [Scalar; 2],
}

impl Default for HudTransform {
    /// At the origin, unrotated, at scale one.
    fn default() -> (r: HudTransform)
        ensures
            r.translation@ == seq![Scalar { bits: 0 }, Scalar { bits: 0 }, Scalar { bits: 0 }],
            r.rotation == (Scalar { bits: 0 }),
            r.scale@ == seq![Scalar { bits: 0x3f80_0000 }, Scalar { bits: 0x3f80_0000 }],
    {
        HudTransform::from_xyz(Scalar::zero(), Scalar::zero(), Scalar::zero())
    }
}

impl HudTransform {
    /// At a place, unrotated, at scale one.
    pub fn from_xyz(x: Scalar, y: Scalar, z: Scalar) -> (r: HudTransform)
        ensures
            r.translation@ == seq![x, y, z],
            r.rotation == (Scalar { bits: 0 }),
            r.scale@ == seq![Scalar { bits: 0x3f80_0000 }, Scalar { bits: 0x3f80_0000 }],
    {
        let r = HudTransform {
            translation: [x, y, z],
            rotation: Scalar::zero(),
            scale: [Scalar::one(), Scalar::one()],
        };
        assert(r.translation@ =~= seq![x, y, z]);
        assert(r.scale@ =~= seq![Scalar { bits: 0x3f80_0000 }, Scalar { bits: 0x3f80_0000 }]);
        r
    }
}

/// Where an instance is drawn: column-major 2x2 linear part, translation and
/// depth.
#[derive(Clone, Copy, Debug, PartialEq, Eq)]
pub struct Placement {
    pub linear: [Scalar; 4],
    pub translation: [Scalar; 2],
    pub z: Scalar,
}

/// A vector shape authored as a path outline plus style.
#[derive(Clone, Debug)]
pub struct VectorShape {
    pub commands: Vec<PathCommand>,
    pub style: PathStyle,
}

/// Parametric primitives evaluated from a canonical mesh: animating their
/// parameters costs one instance write.
#[derive(Clone, Copy, Debug, PartialEq, Eq)]
pub enum VectorPrimitive {
    /// Ring segment. Angles in radians, y-up, counter-clockwise.
    Arc { inner: Scalar, outer: Scalar, start: Scalar, sweep: Scalar, color: LinearRgba },
    /// Rounded rectangle; stroked where the thickness is positive.
    Rect { size: Point, radius: Scalar, thickness: Scalar, color: LinearRgba },
}

impl VectorPrimitive {
    pub open spec fn spec_color(self) -> LinearRgba {
        match self {
            VectorPrimitive::Arc { inner, outer, start, sweep, color } => color,
            VectorPrimitive::Rect { size, radius, thickness, color } => color,
        }
    }

    /// The colour it is painted with.
    pub fn color(&self) -> (color: LinearRgba)
        ensures
            color == self.spec_color(),
    {
        match *self {
            VectorPrimitive::Arc { color, .. } => color,
            VectorPrimitive::Rect { color, .. } => color,
        }
    }
}

/// A clip region. Clips nest by clipping a clip.
#[derive(Clone, Copy, Debug, PartialEq, Eq)]
pub enum VectorClipShape {
    RoundedRect { half_extents: Point, radius: Scalar },
    Circle { radius: Scalar },
}

/// Clips an entity's rendering to the clip entity with these bits, and to that
/// clip's own ancestors.
#[derive(Clone, Copy, Debug, PartialEq, Eq, Structural)]
pub struct ClippedBy(pub u64);


/// Either kind of primitive is painted with the colour it was given.
pub proof fn lemma_primitives_have_their_own_colour(primitive: VectorPrimitive)
    ensures
        primitive is Arc ==> primitive.spec_color() == primitive->Arc_color,
        primitive is Rect ==> primitive.spec_color() == primitive->Rect_color,
{
}

} // verus!
