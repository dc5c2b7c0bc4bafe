//! The geometry cache: tessellated once per content key, appended to shared
//! vertex and index arrays, never moved.

use vstd::prelude::*;

use crate::keyed::KeyedStore;
use crate::render::gpu::GpuVertex;
use crate::scalar::Scalar;
use crate::tess::{geometry_view, GeometryView, TessellatedGeometry};

verus! {

/// A mesh ready for the cache: interior triangles and silhouette fringe over
/// one vertex list.
pub struct MeshGeometry {
    pub vertices: Vec<GpuVertex>,
    pub interior_indices: Vec<u32>,
    pub fringe_indices: Vec<u32>,
}

/// The contents of a mesh.
#[verifier::ext_equal]
pub struct MeshView {
    pub vertices: Seq<GpuVertex>,
    pub interior_indices: Seq<u32>,
    pub fringe_indices: Seq<u32>,
}

impl View for MeshGeometry {
    type V = MeshView;

    open spec fn view(&self) -> MeshView {
        MeshView {
            vertices: self.vertices@,
            interior_indices: self.interior_indices@,
            fringe_indices: self.fringe_indices@,
        }
    }
}

/// An interior vertex at a position: no silhouette normal, full coverage.
pub open spec fn interior_vertex(position: [Scalar; 2]) -> GpuVertex {
    GpuVertex {
        position,
        normal: [Scalar { bits: 0 }, Scalar { bits: 0 }],
        coverage: Scalar { bits: 0x3f80_0000 },
    }
}

/// A tessellated outline as a mesh: its triangles are interior, and there is
/// no fringe.
pub open spec fn interior_view(geometry: Option<GeometryView>) -> Option<MeshView> {
    match geometry {
        None => None,
        Some(geometry) => Some(
            MeshView {
                vertices: geometry.vertices.map_values(|p: [Scalar; 2]| interior_vertex(p)),
                interior_indices: geometry.indices,
                fringe_indices: Seq::empty(),
            },
        ),
    }
}

/// Makes a mesh of a tessellated outline.
pub fn interior_mesh(geometry: Option<TessellatedGeometry>) -> (mesh: Option<MeshGeometry>)
    ensures
        mesh_view(mesh) == interior_view(geometry_view(geometry)),
{
    match geometry {
        None => None,
        Some(geometry) => {
            let mesh = solid_mesh(geometry);
            assert(mesh@ =~= interior_view(geometry_view(Some(geometry)))->0);
            Some(mesh)
        },
    }
}

fn solid_mesh(geometry: TessellatedGeometry) -> (mesh: MeshGeometry)
    ensures
        mesh.vertices@ == geometry.vertices@.map_values(|p: [Scalar; 2]| interior_vertex(p)),
        mesh.interior_indices@ == geometry.indices@,
        mesh.fringe_indices@ == Seq::<u32>::empty(),
{
    let mut vertices: Vec<GpuVertex> = Vec::with_capacity(geometry.vertices.len());
    let ghost all = geometry.vertices@.map_values(|p: [Scalar; 2]| interior_vertex(p));
    let mut i: usize = 0;
    while i < geometry.vertices.len()
        invariant
            i <= geometry.vertices@.len(),
            all == geometry.vertices@.map_values(|p: [Scalar; 2]| interior_vertex(p)),
            vertices@ == all.take(i as int),
        decreases geometry.vertices@.len() - i,
    {
        let vertex: GpuVertex = GpuVertex {
            position: geometry.vertices[i],
            normal: [Scalar::zero(), Scalar::zero()],
            coverage: Scalar::one(),
        };
        vertices.push(vertex);
        proof {
            assert(vertex.normal@ =~= all[i as int].normal@);
            assert(vertices@ =~= all.take(i + 1));
        }
        i = i + 1;
    }
    assert(vertices@ =~= all);
    MeshGeometry { vertices, interior_indices: geometry.indices, fringe_indices: Vec::new() }
}

/// Where a mesh lives in the shared arrays.
#[derive(Clone, Copy, Debug, PartialEq, Eq, Structural)]
pub struct GeometryRange {
    pub base_vertex: i32,
    pub interior_first: u32,
    pub interior_count: u32,
    pub fringe_first: u32,
    pub fringe_count: u32,
}

impl GeometryRange {
    /// The ends of both index ranges are representable.
    pub open spec fn fits(self) -> bool {
        &&& self.interior_first + self.interior_count <= u32::MAX
        &&& self.fringe_first + self.fringe_count <= u32::MAX
    }

    /// The range lies inside arrays of these sizes.
    pub open spec fn within(self, vertices: int, indices: int) -> bool {
        &&& 0 <= self.base_vertex <= vertices
        &&& self.interior_first + self.interior_count == self.fringe_first
        &&& self.fringe_first + self.fringe_count <= indices
    }
}

/// The range of a mesh appended behind this many vertices and indices.
pub open spec fn range_at(vertices: int, indices: int, mesh: MeshView) -> GeometryRange {
    GeometryRange {
        base_vertex: vertices as i32,
        interior_first: indices as u32,
        interior_count: mesh.interior_indices.len() as u32,
        fringe_first: (indices + mesh.interior_indices.len()) as u32,
        fringe_count: mesh.fringe_indices.len() as u32,
    }
}

/// Appends a mesh to a pair of shared arrays.
pub fn append_mesh(vertices: &mut Vec<GpuVertex>, indices: &mut Vec<u32>, mesh: &MeshGeometry) -> (range:
    GeometryRange)
    ensures
        final(vertices)@ == old(vertices)@ + mesh.vertices@,
        final(indices)@ == old(indices)@ + mesh.interior_indices@ + mesh.fringe_indices@,
        range == range_at(old(vertices)@.len() as int, old(indices)@.len() as int, mesh@),
{
    let base: usize = vertices.len();
    let interior_first: usize = indices.len();
    append_vertices(vertices, &mesh.vertices);
    append_indices(indices, &mesh.interior_indices);
    let fringe_first: usize = indices.len();
    append_indices(indices, &mesh.fringe_indices);
    GeometryRange {
        base_vertex: base as i32,
        interior_first: interior_first as u32,
        interior_count: mesh.interior_indices.len() as u32,
        fringe_first: fringe_first as u32,
        fringe_count: mesh.fringe_indices.len() as u32,
    }
}

fn append_vertices(to: &mut Vec<GpuVertex>, from: &Vec<GpuVertex>)
    ensures
        final(to)@ == old(to)@ + from@,
{
    let ghost start = to@;
    let mut i: usize = 0;
    while i < from.len()
        invariant
            i <= from@.len(),
            to@ == start + from@.take(i as int),
        decreases from@.len() - i,
    {
        to.push(from[i]);
        assert(to@ =~= start + from@.take(i + 1));
        i = i + 1;
    }
    assert(from@.take(from@.len() as int) =~= from@);
}

fn append_indices(to: &mut Vec<u32>, from: &Vec<u32>)
    ensures
        final(to)@ == old(to)@ + from@,
{
    let ghost start = to@;
    let mut i: usize = 0;
    while i < from.len()
        invariant
            i <= from@.len(),
            to@ == start + from@.take(i as int),
        decreases from@.len() - i,
    {
        to.push(from[i]);
        assert(to@ =~= start + from@.take(i + 1));
        i = i + 1;
    }
    assert(from@.take(from@.len() as int) =~= from@);
}

/// Tessellated geometry, appended once per unique content key. `dirty` asks
/// for an upload when new geometry has landed.
pub struct GeometryCache {
    pub ranges: KeyedStore<Option<GeometryRange>>,
    pub vertices: Vec<GpuVertex>,
    pub indices: Vec<u32>,
    pub dirty: bool,
}

/// The contents of a cache: the range of each key (`None` for a key without
/// geometry), the keys in order of arrival, and the shared arrays.
#[verifier::ext_equal]
pub struct CacheView {
    pub ranges: Map<u64, Option<GeometryRange>>,
    pub keys: Seq<u64>,
    pub vertices: Seq<GpuVertex>,
    pub indices: Seq<u32>,
    pub dirty: bool,
}

impl CacheView {
    pub open spec fn empty() -> CacheView {
        CacheView {
            ranges: Map::empty(),
            keys: Seq::empty(),
            vertices: Seq::empty(),
            indices: Seq::empty(),
            dirty: false,
        }
    }

    /// The cache after the outcome of one tessellation is entered under a key
    /// that it does not hold yet.
    pub open spec fn grown(self, key: u64, mesh: Option<MeshView>) -> CacheView {
        match mesh {
            None => CacheView {
                ranges: self.ranges.insert(key, None),
                keys: self.keys.push(key),
                ..self
            },
            Some(mesh) => CacheView {
                ranges: self.ranges.insert(
                    key,
                    Some(range_at(self.vertices.len() as int, self.indices.len() as int, mesh)),
                ),
                keys: self.keys.push(key),
                vertices: self.vertices + mesh.vertices,
                indices: self.indices + mesh.interior_indices + mesh.fringe_indices,
                dirty: true,
            },
        }
    }

    /// The cache after a key is ensured with the given tessellation outcome: a
    /// key that is held is left alone.
    pub open spec fn ensured(self, key: u64, mesh: Option<MeshView>) -> CacheView {
        if self.ranges.dom().contains(key) {
            self
        } else {
            self.grown(key, mesh)
        }
    }

    /// The arrays are small enough to be addressed.
    pub open spec fn addressable(self) -> bool {
        self.vertices.len() <= i32::MAX && self.indices.len() <= u32::MAX
    }

    /// While the arrays can be addressed, every range lies inside them.
    pub open spec fn sound(self) -> bool {
        self.addressable() ==> forall|key: u64| #[trigger]
            self.ranges.dom().contains(key) ==> (self.ranges[key] matches Some(range)
                ==> range.within(self.vertices.len() as int, self.indices.len() as int))
    }
}

pub open spec fn mesh_view(mesh: Option<MeshGeometry>) -> Option<MeshView> {
    match mesh {
        None => None,
        Some(mesh) => Some(mesh@),
    }
}

impl View for GeometryCache {
    type V = CacheView;

    open spec fn view(&self) -> CacheView {
        CacheView {
            ranges: self.ranges@,
            keys: self.ranges.arrivals(),
            vertices: self.vertices@,
            indices: self.indices@,
            dirty: self.dirty,
        }
    }
}

impl GeometryCache {
    pub open spec fn wf(self) -> bool {
        self.ranges.wf() && self@.sound()
    }

    pub fn new() -> (cache: GeometryCache)
        ensures
            cache.wf(),
            cache@ == CacheView::empty(),
    {
        let cache = GeometryCache {
            ranges: KeyedStore::new(),
            vertices: Vec::new(),
            indices: Vec::new(),
            dirty: false,
        };
        assert(cache@ =~= CacheView::empty());
        cache
    }

    /// Enters the outcome of a tessellation under a key that is not held yet.
    pub fn enter(&mut self, key: u64, mesh: Option<MeshGeometry>)
        requires
            old(self).wf(),
            !old(self)@.ranges.dom().contains(key),
        ensures
            final(self).wf(),
            final(self)@ == old(self)@.grown(key, mesh_view(mesh)),
    {
        let range: Option<GeometryRange> = match &mesh {
            None => None,
            Some(mesh) => {
                let range = append_mesh(&mut self.vertices, &mut self.indices, mesh);
                self.dirty = true;
                Some(range)
            },
        };
        self.ranges.insert(key, range);
        proof {
            assert(self@ =~= old(self)@.grown(key, mesh_view(mesh)));
            lemma_growth_moves_nothing(old(self)@, key, mesh_view(mesh));
        }
    }

    /// Makes sure that a key is held, tessellating only on first sight: where
    /// the key is held, nothing is asked of `tessellate`, and it is not called.
    pub fn ensure<F: FnOnce() -> Option<MeshGeometry>>(&mut self, key: u64, tessellate: F)
        requires
            old(self).wf(),
            !old(self)@.ranges.dom().contains(key) ==> tessellate.requires(()),
        ensures
            final(self).wf(),
            old(self)@.ranges.dom().contains(key) ==> final(self)@ == old(self)@,
            !old(self)@.ranges.dom().contains(key) ==> exists|mesh: Option<MeshGeometry>|
                tessellate.ensures((), mesh) && final(self)@ == #[trigger] old(self)@.grown(
                    key,
                    mesh_view(mesh),
                ),
    {
        if self.ranges.contains(key) {
            return;
        }
        let mesh = tessellate();
        self.enter(key, mesh);
    }
}

/// Geometry stays where it is: entering a key changes no other key's range and
/// only appends to the shared arrays, and the new range, like the others, lies
/// inside them.
pub proof fn lemma_growth_moves_nothing(cache: CacheView, key: u64, mesh: Option<MeshView>)
    requires
        cache.sound(),
        !cache.ranges.dom().contains(key),
    ensures
        cache.grown(key, mesh).sound(),
        forall|other: u64| #[trigger]
            cache.ranges.dom().contains(other) ==> cache.grown(key, mesh).ranges.dom().contains(
                other,
            ) && cache.grown(key, mesh).ranges[other] == cache.ranges[other],
        cache.grown(key, mesh).vertices.take(cache.vertices.len() as int) == cache.vertices,
        cache.grown(key, mesh).indices.take(cache.indices.len() as int) == cache.indices,
{
    let next = cache.grown(key, mesh);
    assert(next.vertices.take(cache.vertices.len() as int) =~= cache.vertices);
    assert(next.indices.take(cache.indices.len() as int) =~= cache.indices);
}

/// A mesh is found again where its range says: its vertices from the base
/// vertex on, its interior and then its fringe indices in their index ranges.
pub proof fn lemma_meshes_are_found_again(cache: CacheView, key: u64, mesh: MeshView)
    requires
        cache.grown(key, Some(mesh)).addressable(),
    ensures
        ({
            let next = cache.grown(key, Some(mesh));
            let range = next.ranges[key]->0;
            &&& next.ranges[key] is Some
            &&& next.vertices.skip(range.base_vertex as int) == mesh.vertices
            &&& next.indices.subrange(
                range.interior_first as int,
                range.interior_first + range.interior_count,
            ) == mesh.interior_indices
            &&& next.indices.subrange(
                range.fringe_first as int,
                range.fringe_first + range.fringe_count,
            ) == mesh.fringe_indices
        }),
{
    let next = cache.grown(key, Some(mesh));
    let range = next.ranges[key]->0;
    assert(next.vertices.skip(range.base_vertex as int) =~= mesh.vertices);
    assert(next.indices.subrange(
        range.interior_first as int,
        range.interior_first + range.interior_count,
    ) =~= mesh.interior_indices);
    assert(next.indices.subrange(
        range.fringe_first as int,
        range.fringe_first + range.fringe_count,
    ) =~= mesh.fringe_indices);
}


/// A tessellated outline becomes a solid mesh: its points in their order, none
/// with a silhouette normal and all fully covered, its triangles as interior
/// triangles, and no fringe. An outline without triangles becomes no mesh.
pub proof fn lemma_outlines_become_solid_meshes(geometry: Option<GeometryView>)
    ensures
        interior_view(geometry) is Some <==> geometry is Some,
        geometry matches Some(outline) ==> {
            let mesh = interior_view(geometry)->0;
            &&& mesh.vertices.len() == outline.vertices.len()
            &&& forall|i: int|
                0 <= i < outline.vertices.len() ==> {
                    let vertex = #[trigger] mesh.vertices[i];
                    &&& vertex.position == outline.vertices[i]
                    &&& vertex.normal@[0].bits == 0 && vertex.normal@[1].bits == 0
                    &&& vertex.coverage.bits == 0x3f80_0000
                }
            &&& mesh.interior_indices == outline.indices
            &&& mesh.fringe_indices.len() == 0
        },
{
}

/// New triangles ask for an upload, and nothing else does: a key without
/// triangles is remembered as such and changes nothing but that. The keys stand
/// in their order of arrival.
pub proof fn lemma_only_new_triangles_ask_for_an_upload(
    cache: CacheView,
    key: u64,
    mesh: Option<MeshView>,
)
    ensures
        cache.grown(key, mesh).dirty <==> cache.dirty || mesh is Some,
        cache.grown(key, mesh).ranges.dom().contains(key),
        cache.grown(key, mesh).ranges[key] is Some <==> mesh is Some,
        mesh is None ==> cache.grown(key, mesh).vertices == cache.vertices && cache.grown(
            key,
            mesh,
        ).indices == cache.indices,
        cache.grown(key, mesh).keys == cache.keys + seq![key],
        forall|other: u64|
            other != key ==> (#[trigger] cache.grown(key, mesh).ranges.dom().contains(other)
                <==> cache.ranges.dom().contains(other)),
{
    assert(cache.keys.push(key) =~= cache.keys + seq![key]);
}

/// A key that is held is not entered again: nothing changes.
pub proof fn lemma_held_keys_are_left_alone(cache: CacheView, key: u64, mesh: Option<MeshView>)
    ensures
        cache.ranges.dom().contains(key) ==> cache.ensured(key, mesh) == cache,
        cache.ensured(key, mesh).ranges.dom().contains(key),
        !cache.ranges.dom().contains(key) ==> cache.ensured(key, mesh).keys.len()
            == cache.keys.len() + 1,
{
}

} // verus!
