//! The canonical arc strip that every parametric arc is an instance of.

use vstd::prelude::*;

use crate::render::gpu::GpuVertex;
use crate::scalar::Scalar;

verus! {

/// Steps of the strip along the arc.
pub const ARC_SEGMENTS: u32 = 64;

/// Vertices of the canonical arc mesh: an inner/outer pair for each step, an
/// outer and an inner fringe ring, and four end-cap corners.
pub const ARC_VERTEX_COUNT: u32 = 264;

/// Interior index count of the canonical arc mesh (fringe indices follow).
pub const ARC_INTERIOR_INDEX_COUNT: u32 = 384;

/// All indices of the canonical arc mesh.
pub const ARC_INDEX_COUNT: u32 = 1164;

/// First vertex of the outer fringe ring.
const OUTER_RING: u32 = 130;

/// First vertex of the inner fringe ring.
const INNER_RING: u32 = 195;

/// First end-cap corner.
const CAPS: u32 = 260;

pub open spec fn zero() -> Scalar {
    Scalar { bits: 0 }
}

pub open spec fn one() -> Scalar {
    Scalar { bits: 0x3f80_0000 }
}

pub open spec fn minus_one() -> Scalar {
    Scalar { bits: 0xbf80_0000 }
}

/// A vertex of the strip: `position` is the step along the arc (`step / 64`)
/// and the side (0 inner, 1 outer), `normal` the outward direction (radial,
/// tangential).
pub open spec fn is_arc_vertex(
    vertex: GpuVertex,
    step: int,
    side: Scalar,
    radial: Scalar,
    tangential: Scalar,
    coverage: Scalar,
) -> bool {
    &&& vertex.position@[0].denotes(step as nat, 6)
    &&& vertex.position@[1] == side
    &&& vertex.normal@[0] == radial
    &&& vertex.normal@[1] == tangential
    &&& vertex.coverage == coverage
}

/// What stands at a place in the vertex list. Interior vertices carry their
/// outward directions (radial at the ring edges, tangential at the two ends);
/// the fringe rings displace radially, the cap corners both ways.
pub open spec fn arc_vertex_at(vertex: GpuVertex, at: int) -> bool {
    if at < 130 {
        let step = at / 2;
        let outer = at % 2 == 1;
        is_arc_vertex(
            vertex,
            step,
            if outer { one() } else { zero() },
            if outer { one() } else { minus_one() },
            if step == 0 { minus_one() } else if step == 64 { one() } else { zero() },
            one(),
        )
    } else if at < 195 {
        is_arc_vertex(vertex, at - 130, one(), one(), zero(), zero())
    } else if at < 260 {
        is_arc_vertex(vertex, at - 195, zero(), minus_one(), zero(), zero())
    } else if at == 260 {
        is_arc_vertex(vertex, 0, zero(), minus_one(), minus_one(), zero())
    } else if at == 261 {
        is_arc_vertex(vertex, 0, one(), one(), minus_one(), zero())
    } else if at == 262 {
        is_arc_vertex(vertex, 64, zero(), minus_one(), one(), zero())
    } else {
        is_arc_vertex(vertex, 64, one(), one(), one(), zero())
    }
}

/// The two interior triangles of a step.
pub open spec fn interior_quad(i: int) -> Seq<int> {
    seq![2 * i, 2 * i + 1, 2 * i + 2, 2 * i + 2, 2 * i + 1, 2 * i + 3]
}

/// The outer and the inner fringe triangles of a step.
pub open spec fn fringe_quads(i: int) -> Seq<int> {
    seq![
        2 * i + 1,
        130 + i,
        2 * i + 3,
        2 * i + 3,
        130 + i,
        131 + i,
        195 + i,
        2 * i,
        196 + i,
        196 + i,
        2 * i,
        2 * i + 2,
    ]
}

/// The fringe triangles at the two ends.
pub open spec fn cap_quads() -> Seq<int> {
    seq![0, 260, 1, 1, 260, 261, 128, 262, 129, 129, 262, 263]
}

/// What stands at a place in the index list: the interior triangles of every
/// step, then the fringe triangles of every step, then the caps.
pub open spec fn arc_index(at: int) -> int {
    if at < 384 {
        interior_quad(at / 6)[at % 6]
    } else if at < 1152 {
        fringe_quads((at - 384) / 12)[(at - 384) % 12]
    } else {
        cap_quads()[at - 1152]
    }
}

fn push_vertex(
    vertices: &mut Vec<GpuVertex>,
    step: u32,
    side: Scalar,
    radial: Scalar,
    tangential: Scalar,
    coverage: Scalar,
)
    requires
        step <= 64,
        forall|at: int|
            0 <= at < old(vertices)@.len() ==> arc_vertex_at(#[trigger] old(vertices)@[at], at),
        forall|vertex: GpuVertex| #[trigger]
            is_arc_vertex(vertex, step as int, side, radial, tangential, coverage)
                ==> arc_vertex_at(vertex, old(vertices)@.len() as int),
    ensures
        final(vertices)@.len() == old(vertices)@.len() + 1,
        forall|at: int|
            0 <= at < final(vertices)@.len() ==> arc_vertex_at(#[trigger] final(vertices)@[at], at),
{
    let vertex = GpuVertex {
        position: [Scalar::dyadic(step, 6), side],
        normal: [radial, tangential],
        coverage,
    };
    assert(is_arc_vertex(vertex, step as int, side, radial, tangential, coverage));
    vertices.push(vertex);
}

fn arc_vertices() -> (vertices: Vec<GpuVertex>)
    ensures
        vertices@.len() == ARC_VERTEX_COUNT,
        forall|at: int|
            0 <= at < vertices@.len() ==> arc_vertex_at(#[trigger] vertices@[at], at),
{
    let low = Scalar::zero();
    let high = Scalar::one();
    let minus = Scalar::one().neg();
    assert(minus == minus_one());
    let mut vertices: Vec<GpuVertex> = Vec::with_capacity(264);
    let mut i: u32 = 0;
    while i <= 64
        invariant
            low == zero(),
            high == one(),
            minus == minus_one(),
            i <= 65,
            vertices@.len() == 2 * i,
            forall|at: int|
                0 <= at < vertices@.len() ==> arc_vertex_at(#[trigger] vertices@[at], at),
        decreases 65 - i,
    {
        let tangential: Scalar = if i == 0 {
            minus
        } else if i == 64 {
            high
        } else {
            low
        };
        push_vertex(&mut vertices, i, low, minus, tangential, high);
        push_vertex(&mut vertices, i, high, high, tangential, high);
        i = i + 1;
    }
    let mut i: u32 = 0;
    while i <= 64
        invariant
            low == zero(),
            high == one(),
            i <= 65,
            vertices@.len() == 130 + i,
            forall|at: int|
                0 <= at < vertices@.len() ==> arc_vertex_at(#[trigger] vertices@[at], at),
        decreases 65 - i,
    {
        push_vertex(&mut vertices, i, high, high, low, low);
        i = i + 1;
    }
    let mut i: u32 = 0;
    while i <= 64
        invariant
            low == zero(),
            minus == minus_one(),
            i <= 65,
            vertices@.len() == 195 + i,
            forall|at: int|
                0 <= at < vertices@.len() ==> arc_vertex_at(#[trigger] vertices@[at], at),
        decreases 65 - i,
    {
        push_vertex(&mut vertices, i, low, minus, low, low);
        i = i + 1;
    }
    push_vertex(&mut vertices, 0, low, minus, minus, low);
    push_vertex(&mut vertices, 0, high, high, minus, low);
    push_vertex(&mut vertices, 64, low, minus, high, low);
    push_vertex(&mut vertices, 64, high, high, high, low);
    vertices
}

fn push_six(indices: &mut Vec<u32>, a: u32, b: u32, c: u32, d: u32, e: u32, f: u32)
    ensures
        final(indices)@ == old(indices)@ + seq![a, b, c, d, e, f],
{
    indices.push(a);
    indices.push(b);
    indices.push(c);
    indices.push(d);
    indices.push(e);
    indices.push(f);
    assert(indices@ =~= old(indices)@ + seq![a, b, c, d, e, f]);
}

fn arc_indices() -> (indices: Vec<u32>)
    ensures
        indices@.len() == ARC_INDEX_COUNT,
        forall|at: int| 0 <= at < indices@.len() ==> #[trigger] indices@[at] == arc_index(at),
{
    let mut indices: Vec<u32> = Vec::with_capacity(1164);
    let mut i: u32 = 0;
    while i < ARC_SEGMENTS
        invariant
            i <= 64,
            indices@.len() == 6 * i,
            forall|at: int| 0 <= at < indices@.len() ==> #[trigger] indices@[at] == arc_index(at),
        decreases 64 - i,
    {
        push_six(
            &mut indices,
            2 * i,
            2 * i + 1,
            2 * i + 2,
            2 * i + 2,
            2 * i + 1,
            2 * i + 3,
        );
        i = i + 1;
    }
    let mut i: u32 = 0;
    while i < ARC_SEGMENTS
        invariant
            i <= 64,
            indices@.len() == 384 + 12 * i,
            forall|at: int| 0 <= at < indices@.len() ==> #[trigger] indices@[at] == arc_index(at),
        decreases 64 - i,
    {
        push_six(
            &mut indices,
            2 * i + 1,
            OUTER_RING + i,
            2 * i + 3,
            2 * i + 3,
            OUTER_RING + i,
            OUTER_RING + i + 1,
        );
        push_six(
            &mut indices,
            INNER_RING + i,
            2 * i,
            INNER_RING + i + 1,
            INNER_RING + i + 1,
            2 * i,
            2 * i + 2,
        );
        i = i + 1;
    }
    push_six(&mut indices, 0, CAPS, 1, 1, CAPS, CAPS + 1);
    push_six(&mut indices, 128, CAPS + 2, 129, 129, CAPS + 2, CAPS + 3);
    indices
}

/// The canonical arc mesh: vertices, indices with the fringe behind the
/// interior, and how many of the indices are interior.
pub fn canonical_arc_mesh() -> (mesh: (Vec<GpuVertex>, Vec<u32>, u32))
    ensures
        mesh.0@.len() == ARC_VERTEX_COUNT,
        forall|at: int| 0 <= at < mesh.0@.len() ==> arc_vertex_at(#[trigger] mesh.0@[at], at),
        mesh.1@.len() == ARC_INDEX_COUNT,
        forall|at: int| 0 <= at < mesh.1@.len() ==> #[trigger] mesh.1@[at] == arc_index(at),
        mesh.2 == ARC_INTERIOR_INDEX_COUNT,
{
    (arc_vertices(), arc_indices(), ARC_INTERIOR_INDEX_COUNT)
}

/// The corners of the quad that every distance-field primitive scales, and its
/// two triangles.
pub fn sdf_quad() -> (mesh: (Vec<GpuVertex>, Vec<u32>))
    ensures
        mesh.0@.len() == 4,
        forall|at: int|
            0 <= at < 4 ==> {
                let vertex = #[trigger] mesh.0@[at];
                &&& vertex.position@ == seq![
                    if at == 1 || at == 2 { one() } else { minus_one() },
                    if at >= 2 { one() } else { minus_one() },
                ]
                &&& vertex.normal@ == seq![zero(), zero()]
                &&& vertex.coverage == one()
            },
        mesh.1@ == seq![0u32, 1, 2, 0, 2, 3],
{
    let low = Scalar::one().neg();
    assert(low == minus_one());
    let high = Scalar::one();
    let flat = [Scalar::zero(), Scalar::zero()];
    let mut vertices: Vec<GpuVertex> = Vec::with_capacity(4);
    vertices.push(GpuVertex { position: [low, low], normal: flat, coverage: high });
    vertices.push(GpuVertex { position: [high, low], normal: flat, coverage: high });
    vertices.push(GpuVertex { position: [high, high], normal: flat, coverage: high });
    vertices.push(GpuVertex { position: [low, high], normal: flat, coverage: high });
    let mut indices: Vec<u32> = Vec::with_capacity(6);
    push_six(&mut indices, 0, 1, 2, 0, 2, 3);
    assert(indices@ =~= seq![0u32, 1, 2, 0, 2, 3]);
    (vertices, indices)
}

/// Every index names a vertex, interior triangles only full-coverage ones;
/// every fringe triangle runs from the solid strip out to zero coverage.
pub proof fn lemma_arc_indices_are_in_bounds(at: int)
    requires
        0 <= at < ARC_INDEX_COUNT,
    ensures
        0 <= arc_index(at) < ARC_VERTEX_COUNT,
        at < ARC_INTERIOR_INDEX_COUNT ==> arc_index(at) < 130,
        at >= ARC_INTERIOR_INDEX_COUNT && at % 3 == 0 ==> {
            let (a, b, c) = (arc_index(at), arc_index(at + 1), arc_index(at + 2));
            (a < 130 || b < 130 || c < 130) && (a >= 130 || b >= 130 || c >= 130)
        },
{
    if at >= 1152 {
        let cap = cap_quads();
        assert(cap.len() == 12);
        assert(at == 1152 || at == 1153 || at == 1154 || at == 1155 || at == 1156 || at == 1157
            || at == 1158 || at == 1159 || at == 1160 || at == 1161 || at == 1162 || at == 1163);
    }
}


/// A corner of the strip: this many sixty-fourths along the arc, on the outer or
/// the inner edge, solid or faded out. It is displaced outwards on the outer
/// edge and inwards on the inner one.
pub open spec fn is_corner(vertex: GpuVertex, step: int, outer: bool, solid: bool) -> bool {
    &&& vertex.position@[0].denotes(step as nat, 6)
    &&& vertex.position@[1].bits == (if outer { 0x3f80_0000u32 } else { 0u32 })
    &&& vertex.normal@[0].bits == (if outer { 0x3f80_0000u32 } else { 0xbf80_0000u32 })
    &&& vertex.coverage.bits == (if solid { 0x3f80_0000u32 } else { 0u32 })
}

/// A corner at the start of the arc is displaced backwards, one at its end
/// forwards, any other neither way.
pub open spec fn leans(vertex: GpuVertex, step: int) -> bool {
    vertex.normal@[1].bits == (if step == 0 {
        0xbf80_0000u32
    } else if step == 64 {
        0x3f80_0000u32
    } else {
        0u32
    })
}

/// Six indices are two triangles over the four given corners, `a` and `b` at one
/// end and `c` and `d` at the other: `a b c` and `c b d`.
pub open spec fn is_quad(
    indices: Seq<u32>,
    at: int,
    a: u32,
    b: u32,
    c: u32,
    d: u32,
) -> bool {
    indices.subrange(at, at + 6) =~= seq![a, b, c, c, b, d]
}

/// The strip covers the arc: between each step and the next lie two solid
/// triangles from the inner to the outer edge, two that fade out from the outer
/// edge and two that fade out from the inner one, and the two ends fade out too.
/// Nothing else is in the mesh.
pub proof fn lemma_the_strip_covers_the_arc(vertices: Seq<GpuVertex>, indices: Seq<u32>, i: int)
    requires
        vertices.len() == ARC_VERTEX_COUNT,
        forall|at: int| 0 <= at < vertices.len() ==> arc_vertex_at(#[trigger] vertices[at], at),
        indices.len() == ARC_INDEX_COUNT,
        forall|at: int| 0 <= at < indices.len() ==> #[trigger] indices[at] == arc_index(at),
        0 <= i < 64,
    ensures
        indices.len() == 64 * 6 + 64 * 12 + 12,
        ARC_INTERIOR_INDEX_COUNT == 64 * 6,
        vertices.len() == 2 * 65 + 65 + 65 + 4,
        ({
            let (a, b) = (indices[6 * i], indices[6 * i + 1]);
            let (c, d) = (indices[6 * i + 2], indices[6 * i + 5]);
            &&& a < vertices.len() && b < vertices.len() && c < vertices.len() && d
                < vertices.len()
            &&& is_quad(indices, 6 * i, a, b, c, d)
            &&& is_corner(vertices[a as int], i, false, true) && leans(vertices[a as int], i)
            &&& is_corner(vertices[b as int], i, true, true) && leans(vertices[b as int], i)
            &&& is_corner(vertices[c as int], i + 1, false, true) && leans(
                vertices[c as int],
                i + 1,
            )
            &&& is_corner(vertices[d as int], i + 1, true, true) && leans(vertices[d as int], i + 1)
        }),
        ({
            let at = 384 + 12 * i;
            let (a, b) = (indices[at], indices[at + 1]);
            let (c, d) = (indices[at + 2], indices[at + 5]);
            &&& a < vertices.len() && b < vertices.len() && c < vertices.len() && d
                < vertices.len()
            &&& is_quad(indices, at, a, b, c, d)
            &&& is_corner(vertices[a as int], i, true, true)
            &&& is_corner(vertices[b as int], i, true, false)
            &&& vertices[b as int].normal@[1].bits == 0
            &&& is_corner(vertices[c as int], i + 1, true, true)
            &&& is_corner(vertices[d as int], i + 1, true, false)
            &&& vertices[d as int].normal@[1].bits == 0
        }),
        ({
            let at = 384 + 12 * i + 6;
            let (a, b) = (indices[at], indices[at + 1]);
            let (c, d) = (indices[at + 2], indices[at + 5]);
            &&& a < vertices.len() && b < vertices.len() && c < vertices.len() && d
                < vertices.len()
            &&& is_quad(indices, at, a, b, c, d)
            &&& is_corner(vertices[a as int], i, false, false)
            &&& vertices[a as int].normal@[1].bits == 0
            &&& is_corner(vertices[b as int], i, false, true)
            &&& is_corner(vertices[c as int], i + 1, false, false)
            &&& vertices[c as int].normal@[1].bits == 0
            &&& is_corner(vertices[d as int], i + 1, false, true)
        }),
{
    assert((6 * i) / 6 == i && (6 * i + 1) / 6 == i && (6 * i + 2) / 6 == i && (6 * i + 3) / 6 == i
        && (6 * i + 4) / 6 == i && (6 * i + 5) / 6 == i);
    assert(indices.subrange(6 * i, 6 * i + 6) =~= seq![
        (2 * i) as u32,
        (2 * i + 1) as u32,
        (2 * i + 2) as u32,
        (2 * i + 2) as u32,
        (2 * i + 1) as u32,
        (2 * i + 3) as u32,
    ]) by {
        lemma_six(indices, 6 * i);
    }
    let at = 384 + 12 * i;
    lemma_six(indices, at);
    lemma_six(indices, at + 6);
    assert(fringe_quads(i).len() == 12);
    assert(arc_vertex_at(vertices[2 * i], 2 * i));
    assert(arc_vertex_at(vertices[2 * i + 1], 2 * i + 1));
    assert(arc_vertex_at(vertices[2 * i + 2], 2 * i + 2));
    assert(arc_vertex_at(vertices[2 * i + 3], 2 * i + 3));
    assert(arc_vertex_at(vertices[130 + i], 130 + i));
    assert(arc_vertex_at(vertices[131 + i], 131 + i));
    assert(arc_vertex_at(vertices[195 + i], 195 + i));
    assert(arc_vertex_at(vertices[196 + i], 196 + i));
}

proof fn lemma_six(indices: Seq<u32>, at: int)
    requires
        indices.len() == ARC_INDEX_COUNT,
        forall|at: int| 0 <= at < indices.len() ==> #[trigger] indices[at] == arc_index(at),
        0 <= at,
        at + 6 <= indices.len(),
    ensures
        forall|k: int| 0 <= k < 6 ==> #[trigger] indices.subrange(at, at + 6)[k] == arc_index(
            at + k,
        ),
        indices[at] == arc_index(at),
        indices[at + 1] == arc_index(at + 1),
        indices[at + 2] == arc_index(at + 2),
        indices[at + 3] == arc_index(at + 3),
        indices[at + 4] == arc_index(at + 4),
        indices[at + 5] == arc_index(at + 5),
{
}

/// The two ends of the arc fade out: the last two quads of the mesh join the
/// solid edge of the first step, and that of the last one, to corners displaced
/// backwards and forwards.
pub proof fn lemma_the_ends_of_the_arc_fade_out(vertices: Seq<GpuVertex>, indices: Seq<u32>)
    requires
        vertices.len() == ARC_VERTEX_COUNT,
        forall|at: int| 0 <= at < vertices.len() ==> arc_vertex_at(#[trigger] vertices[at], at),
        indices.len() == ARC_INDEX_COUNT,
        forall|at: int| 0 <= at < indices.len() ==> #[trigger] indices[at] == arc_index(at),
    ensures
        forall|end: bool|
            {
                let at: int = if end { 1158 } else { 1152 };
                let step: int = if end { 64 } else { 0 };
                let (a, b) = (indices[at], indices[at + 1]);
                let (c, d) = (indices[at + 2], indices[at + 5]);
                &&& a < vertices.len() && b < vertices.len() && c < vertices.len() && d
                    < vertices.len()
                &&& #[trigger] is_quad_at(indices, end)
                &&& is_corner(vertices[a as int], step, false, true)
                &&& is_corner(vertices[b as int], step, false, false) && leans(
                    vertices[b as int],
                    step,
                )
                &&& is_corner(vertices[c as int], step, true, true)
                &&& is_corner(vertices[d as int], step, true, false) && leans(
                    vertices[d as int],
                    step,
                )
            },
{
    lemma_six(indices, 1152);
    lemma_six(indices, 1158);
    assert(cap_quads().len() == 12);
    assert(arc_vertex_at(vertices[0], 0));
    assert(arc_vertex_at(vertices[1], 1));
    assert(arc_vertex_at(vertices[128], 128));
    assert(arc_vertex_at(vertices[129], 129));
    assert(arc_vertex_at(vertices[260], 260));
    assert(arc_vertex_at(vertices[261], 261));
    assert(arc_vertex_at(vertices[262], 262));
    assert(arc_vertex_at(vertices[263], 263));
}

/// The quad at the start or at the end of the arc.
pub open spec fn is_quad_at(indices: Seq<u32>, end: bool) -> bool {
    let at: int = if end { 1158 } else { 1152 };
    is_quad(indices, at, indices[at], indices[at + 1], indices[at + 2], indices[at + 5])
}

} // verus!
