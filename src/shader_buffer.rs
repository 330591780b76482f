//! The flattening of a scene into the contiguous, offset-indexed buffers
//! that the ray-tracing shader reads.
use crate::geometry::{mat4_identity, vec2_zero, vec3_zero};
use crate::mesh::{lemma_range_nonempty, Bvh, BvhContent, Mesh};
use crate::scene::{placed, same_allocation, shown, Model, Node, Shown, Transform};
use glam::Mat4;
use glam::{Vec2, Vec3};
use std::sync::Arc;
use vstd::prelude::*;

verus! {

/// Offset recorded for a per-vertex channel that a mesh lacks, or for a
/// missing hierarchy.
pub const ABSENT: u32 = 0xFFFF_FFFF;

/// Largest value that an index or a count in the buffers can take.
pub const LIMIT: u32 = 0xFFFF_FFFF;

/// Kind of model an object shows, as the shader reads it.
#[derive(Debug, Clone, Copy, PartialEq, Eq, PartialOrd, Ord, Structural)]
pub enum GpuObjectType {
    Sphere,
    Plane,
    Mesh,
}

impl GpuObjectType {
    /// The code the shader reads: 0, 1 and 2 in order of declaration.
    pub open spec fn spec_code(self) -> u32 {
        match self {
            GpuObjectType::Sphere => 0,
            GpuObjectType::Plane => 1,
            GpuObjectType::Mesh => 2,
        }
    }

    pub fn code(self) -> (r: u32)
        ensures
            r == self.spec_code(),
    {
        match self {
            GpuObjectType::Sphere => 0,
            GpuObjectType::Plane => 1,
            GpuObjectType::Mesh => 2,
        }
    }
}

/// Where a mesh's data lies in the shared buffers.
#[derive(Debug, Clone, Copy, PartialEq, Eq, Structural)]
pub struct GpuMesh {
    /// Number of triangles in the model.
    pub num_tris: u32,
    /// BVH root node's offset into the BVH buffer, or `ABSENT`.
    pub bvh_offset: u32,
    /// Triangles' offset into the triangle buffer, counted in triangles.
    pub tri_offset: u32,
    /// Vertices' offset into the vertex buffer.
    pub vert_offset: u32,
    /// Normals' offset into the normal buffer, or `ABSENT`.
    pub norm_offset: u32,
    /// Vertex colours' offset into the vertex colour buffer, or `ABSENT`.
    pub vcol_offset: u32,
    /// Texture coordinates' offset into the UV buffer, or `ABSENT`.
    pub uv_offset: u32,
}

/// One node of a flattened hierarchy.
#[derive(Debug, Clone, Copy)]
pub struct GpuBvh {
    /// Minimum corner of the box.
    pub min: Vec3,
    /// Maximum corner of the box.
    pub max: Vec3,
    /// Index of the first of two adjacent children, or of a leaf's first
    /// triangle in the triangle buffer.
    pub children: u32,
    /// Number of triangles of a leaf; 0 for a node with children.
    pub tri_count: u32,
}

/// One object that the shader draws.
#[derive(Debug, Clone, Copy)]
pub struct GpuObject<M> {
    /// World transform.
    pub transform: Transform,
    /// Material.
    pub prop: M,
    /// `GpuObjectType` code.
    pub model_type: u32,
    /// Index of the mesh in the mesh buffer, 0 for other models.
    pub model_index: u32,
}

/// The buffers of a flattened scene.
pub struct SceneBuffers<M> {
    pub objects: Vec<GpuObject<M>>,
    /// Number of real objects at the start of `objects`.
    pub object_count: u32,
    pub meshes: Vec<GpuMesh>,
    /// Three vertex indices per triangle, into `verts`.
    pub tris: Vec<u32>,
    pub verts: Vec<Vec3>,
    pub norms: Vec<Vec3>,
    pub vcols: Vec<Vec3>,
    pub uvs: Vec<Vec2>,
    pub bvh: Vec<GpuBvh>,
    /// The meshes copied into the buffers, in the order of their entries.
    pub sources: Ghost<Seq<Mesh>>,
}

/// Why a scene could not be flattened.
#[derive(Debug, Clone, Copy, PartialEq, Eq, Structural)]
pub enum FlattenError {
    /// An index or a count would not fit in 32 bits.
    TooLarge,
    /// A mesh is not well formed.
    InvalidMesh,
}

/// The kind of a model that is not `Empty`.
pub open spec fn object_type_of(m: Model) -> GpuObjectType {
    match m {
        Model::Mesh(_) => GpuObjectType::Mesh,
        Model::Plane => GpuObjectType::Plane,
        _ => GpuObjectType::Sphere,
    }
}

/// Number of nodes of a hierarchy.
pub open spec fn bvh_size(b: Bvh) -> nat
    decreases b,
{
    match b.content {
        BvhContent::Leaf(_) => 1,
        BvhContent::Node(p) => 1 + bvh_size(*p.0) + bvh_size(*p.1),
    }
}

/// Entry `idx` of `buf` encodes `b`, whose triangle ranges are shifted by
/// `tri_offset`; the entries of its descendants lie in `lo..hi`.
pub open spec fn bvh_encoded(
    buf: Seq<GpuBvh>,
    idx: int,
    b: Bvh,
    tri_offset: int,
    lo: int,
    hi: int,
) -> bool
    decreases b,
{
    &&& 0 <= idx < buf.len()
    &&& buf[idx].min == b.min
    &&& buf[idx].max == b.max
    &&& match b.content {
        BvhContent::Leaf(l) => {
            &&& buf[idx].children as int == l.begin + tri_offset
            &&& buf[idx].tri_count as int == l.end - l.begin
        },
        BvhContent::Node(p) => {
            let c = buf[idx].children as int;
            &&& buf[idx].tri_count == 0
            &&& lo <= c
            &&& c + 1 < hi
            &&& bvh_encoded(buf, c, *p.0, tri_offset, lo, hi)
            &&& bvh_encoded(buf, c + 1, *p.1, tri_offset, lo, hi)
        },
    }
}

/// A per-vertex channel is copied to `buf` from `offset` on, or is absent.
pub open spec fn channel_encoded<A>(buf: Seq<A>, offset: u32, ch: Option<Vec<A>>) -> bool {
    match ch {
        Some(v) => {
            &&& offset < ABSENT
            &&& offset + v@.len() <= buf.len()
            &&& forall|i: int| 0 <= i < v@.len() ==> #[trigger] buf[offset + i] == v@[i]
        },
        None => offset == ABSENT,
    }
}

/// What the meshes `ms` take, buffer by buffer: triangles, vertices,
/// normals, vertex colours, texture coordinates and hierarchy nodes.
pub open spec fn totals(ms: Seq<Mesh>) -> (nat, nat, nat, nat, nat, nat)
    decreases ms.len(),
{
    if ms.len() == 0 {
        (0, 0, 0, 0, 0, 0)
    } else {
        let t = totals(ms.drop_last());
        let m = ms.last();
        (
            t.0 + m.tris@.len(),
            t.1 + m.verts@.len(),
            t.2 + channel_len(m.normals),
            t.3 + channel_len(m.vert_cols),
            t.4 + channel_len(m.vert_uv),
            t.5 + match m.bvh {
                Some(b) => bvh_size(b),
                None => 0,
            },
        )
    }
}

/// The entry of mesh `k` when the meshes `ms` are copied one after the
/// other, each buffer starting empty.
pub open spec fn entry_at(ms: Seq<Mesh>, k: int) -> GpuMesh {
    let t = totals(ms.take(k));
    let m = ms[k];
    GpuMesh {
        num_tris: m.tris@.len() as u32,
        bvh_offset: match m.bvh {
            Some(_) => t.5 as u32,
            None => ABSENT,
        },
        tri_offset: t.0 as u32,
        vert_offset: t.1 as u32,
        norm_offset: channel_offset(m.normals, t.2),
        vcol_offset: channel_offset(m.vert_cols, t.3),
        uv_offset: channel_offset(m.vert_uv, t.4),
    }
}

/// Number of entries of a per-vertex channel, 0 when it is absent.
pub open spec fn channel_len<A>(ch: Option<Vec<A>>) -> nat {
    match ch {
        Some(v) => v@.len(),
        None => 0,
    }
}

/// The offset at which a channel is copied to a buffer of `len` entries.
pub open spec fn channel_offset<A>(ch: Option<Vec<A>>, len: nat) -> u32 {
    match ch {
        Some(_) => len as u32,
        None => ABSENT,
    }
}

impl<M> SceneBuffers<M> {
    /// Entry `k` of `meshes` locates a copy of `m`: its triangles, with
    /// vertex indices shifted to the vertex buffer, its vertices, the
    /// channels it has and its hierarchy, with triangle ranges shifted to the
    /// triangle buffer.
    pub open spec fn mesh_encoded(self, k: int, m: Mesh) -> bool {
        let g = self.meshes@[k];
        &&& 0 <= k < self.meshes@.len()
        &&& g.num_tris == m.tris@.len()
        &&& 3 * (g.tri_offset + m.tris@.len()) <= self.tris@.len()
        &&& forall|t: int, c: int|
            0 <= t < m.tris@.len() && 0 <= c < 3 ==> #[trigger] self.tris@[3 * (g.tri_offset + t)
                + c] == m.tris@[t][c] + g.vert_offset
        &&& g.vert_offset + m.verts@.len() <= self.verts@.len()
        &&& forall|i: int|
            0 <= i < m.verts@.len() ==> #[trigger] self.verts@[g.vert_offset + i] == m.verts@[i]
        &&& channel_encoded(self.norms@, g.norm_offset, m.normals)
        &&& channel_encoded(self.vcols@, g.vcol_offset, m.vert_cols)
        &&& channel_encoded(self.uvs@, g.uv_offset, m.vert_uv)
        &&& match m.bvh {
            Some(b) => bvh_encoded(
                self.bvh@,
                g.bvh_offset as int,
                b,
                g.tri_offset as int,
                0,
                self.bvh@.len() as int,
            ),
            None => g.bvh_offset == ABSENT,
        }
    }

    /// `o` draws the shown object `s`.
    pub open spec fn object_encoded(self, o: GpuObject<M>, s: Shown<M>) -> bool {
        &&& o.transform@ == s.transform
        &&& o.prop == s.prop
        &&& o.model_type == object_type_of(s.model).spec_code()
        &&& match s.model {
            Model::Mesh(m) => self.mesh_encoded(o.model_index as int, *m),
            _ => o.model_index == 0,
        }
    }

    /// The objects from index `start` on draw the shown objects `s`, in
    /// order.
    pub open spec fn objects_encoded(self, start: int, s: Seq<Shown<M>>) -> bool {
        &&& 0 <= start
        &&& self.objects@.len() >= start + s.len()
        &&& forall|j: int|
            0 <= j < s.len() ==> self.object_encoded(#[trigger] self.objects@[start + j], s[j])
    }

    /// Every buffer of `self` starts with the corresponding one of `old`.
    pub open spec fn extends(self, old: SceneBuffers<M>) -> bool {
        &&& old.objects@.is_prefix_of(self.objects@)
        &&& old.meshes@.is_prefix_of(self.meshes@)
        &&& old.tris@.is_prefix_of(self.tris@)
        &&& old.verts@.is_prefix_of(self.verts@)
        &&& old.norms@.is_prefix_of(self.norms@)
        &&& old.vcols@.is_prefix_of(self.vcols@)
        &&& old.uvs@.is_prefix_of(self.uvs@)
        &&& old.bvh@.is_prefix_of(self.bvh@)
    }

    /// The mesh-side buffers hold the meshes of `sources`, one after the
    /// other in that order, and nothing else.
    pub open spec fn laid_out(self) -> bool {
        let ms = self.sources@;
        let t = totals(ms);
        &&& self.meshes@.len() == ms.len()
        &&& forall|k: int| 0 <= k < ms.len() ==> #[trigger] self.meshes@[k] == entry_at(ms, k)
        &&& self.tris@.len() == 3 * t.0
        &&& self.verts@.len() == t.1
        &&& self.norms@.len() == t.2
        &&& self.vcols@.len() == t.3
        &&& self.uvs@.len() == t.4
        &&& self.bvh@.len() == t.5
    }

    /// No buffer of `self` has more than `d` entries beyond those of `old`.
    pub open spec fn grown_by(self, old: SceneBuffers<M>, d: int) -> bool {
        &&& self.objects@.len() <= old.objects@.len() + d
        &&& self.meshes@.len() <= old.meshes@.len() + d
        &&& self.tris@.len() <= old.tris@.len() + d
        &&& self.verts@.len() <= old.verts@.len() + d
        &&& self.norms@.len() <= old.norms@.len() + d
        &&& self.vcols@.len() <= old.vcols@.len() + d
        &&& self.uvs@.len() <= old.uvs@.len() + d
        &&& self.bvh@.len() <= old.bvh@.len() + d
    }

    /// Every buffer can take `d` more entries with all indices below
    /// `LIMIT`.
    pub open spec fn fits(self, d: int) -> bool {
        &&& self.objects@.len() + d <= LIMIT
        &&& self.meshes@.len() + d <= LIMIT
        &&& self.tris@.len() + d <= LIMIT
        &&& self.verts@.len() + d <= LIMIT
        &&& self.norms@.len() + d <= LIMIT
        &&& self.vcols@.len() + d <= LIMIT
        &&& self.uvs@.len() + d <= LIMIT
        &&& self.bvh@.len() + d <= LIMIT
    }
}

/// The entries that flattening `m` adds to any one buffer, at most.
pub open spec fn mesh_demand(m: Mesh) -> int {
    (5 * m.tris@.len() + 4 * m.verts@.len() + 1) as int
}

/// The entries that flattening the shown objects `s` adds to any one
/// buffer, at most.
pub open spec fn shown_demand<M>(s: Seq<Shown<M>>) -> int
    decreases s.len(),
{
    if s.len() == 0 {
        0
    } else {
        shown_demand(s.drop_last()) + 1 + match s.last().model {
            Model::Mesh(m) => mesh_demand(*m),
            _ => 0,
        }
    }
}

/// Every mesh among the shown objects `s` is well formed.
pub open spec fn shown_meshes_wf<M>(s: Seq<Shown<M>>) -> bool {
    forall|i: int| 0 <= i < s.len() ==> ((#[trigger] s[i]).model matches Model::Mesh(m) ==> m.wf())
}

/// A hierarchy has fewer nodes than twice the triangles it covers.
pub proof fn lemma_bvh_size(b: Bvh)
    requires
        b.wf(),
    ensures
        bvh_size(b) < 2 * (b.last() - b.first()),
    decreases b,
{
    if let BvhContent::Node(p) = b.content {
        lemma_bvh_size(*p.0);
        lemma_bvh_size(*p.1);
    }
}

/// A hierarchy has at least one node.
proof fn lemma_bvh_size_pos(b: Bvh)
    ensures
        bvh_size(b) >= 1,
{
    match b.content {
        BvhContent::Leaf(_) => {},
        BvhContent::Node(_) => {},
    }
}

/// An encoding stays valid in a buffer that agrees on its entries.
proof fn lemma_bvh_frame(
    buf: Seq<GpuBvh>,
    buf2: Seq<GpuBvh>,
    idx: int,
    b: Bvh,
    off: int,
    lo: int,
    hi: int,
)
    requires
        bvh_encoded(buf, idx, b, off, lo, hi),
        idx < buf2.len(),
        buf2[idx] == buf[idx],
        hi <= buf2.len(),
        forall|j: int| lo <= j < hi ==> #[trigger] buf2[j] == buf[j],
    ensures
        bvh_encoded(buf2, idx, b, off, lo, hi),
    decreases b,
{
    if let BvhContent::Node(p) = b.content {
        let c = buf[idx].children as int;
        lemma_bvh_frame(buf, buf2, c, *p.0, off, lo, hi);
        lemma_bvh_frame(buf, buf2, c + 1, *p.1, off, lo, hi);
    }
}

/// An encoding whose entries lie in `lo..hi` lies in any wider range.
proof fn lemma_bvh_widen(
    buf: Seq<GpuBvh>,
    idx: int,
    b: Bvh,
    off: int,
    lo: int,
    hi: int,
    lo2: int,
    hi2: int,
)
    requires
        bvh_encoded(buf, idx, b, off, lo, hi),
        lo2 <= lo,
        hi <= hi2,
    ensures
        bvh_encoded(buf, idx, b, off, lo2, hi2),
    decreases b,
{
    if let BvhContent::Node(p) = b.content {
        let c = buf[idx].children as int;
        lemma_bvh_widen(buf, c, *p.0, off, lo, hi, lo2, hi2);
        lemma_bvh_widen(buf, c + 1, *p.1, off, lo, hi, lo2, hi2);
    }
}

/// Writes the hierarchy `node` at entry `idx` of `buf`, whose box is
/// already there, and its descendants behind the end of `buf`: the two
/// children of a node side by side, then the descendants of the first, then
/// those of the second.
fn flatten_bvh(buf: &mut Vec<GpuBvh>, node: &Bvh, idx: usize, tri_offset: u32)
    requires
        idx < old(buf).len(),
        old(buf)@[idx as int].min == node.min,
        old(buf)@[idx as int].max == node.max,
        node.wf(),
        node.first() >= 0,
        node.last() + tri_offset <= LIMIT,
        old(buf).len() + bvh_size(*node) <= LIMIT,
    ensures
        final(buf).len() == old(buf).len() + bvh_size(*node) - 1,
        forall|j: int|
            0 <= j < old(buf).len() && j != idx ==> #[trigger] final(buf)@[j] == old(buf)@[j],
        bvh_encoded(
            final(buf)@,
            idx as int,
            *node,
            tri_offset as int,
            old(buf).len() as int,
            final(buf).len() as int,
        ),
    decreases node,
{
    match &node.content {
        BvhContent::Leaf(leaf) => {
            let e = buf[idx];
            buf[idx] = GpuBvh {
                min: e.min,
                max: e.max,
                children: leaf.begin as u32 + tri_offset,
                tri_count: (leaf.end - leaf.begin) as u32,
            };
        },
        BvhContent::Node(val) => {
            proof {
                lemma_range_nonempty(*val.0);
                lemma_range_nonempty(*val.1);
                lemma_bvh_size_pos(*val.1);
            }
            let ghost buf0 = buf@;
            let first = buf.len();
            buf.push(GpuBvh { min: val.0.min, max: val.0.max, children: 0, tri_count: 0 });
            buf.push(GpuBvh { min: val.1.min, max: val.1.max, children: 0, tri_count: 0 });
            let e = buf[idx];
            buf[idx] = GpuBvh { min: e.min, max: e.max, children: first as u32, tri_count: 0 };
            let ghost buf1 = buf@;
            flatten_bvh(buf, &val.0, first, tri_offset);
            let ghost buf2 = buf@;
            flatten_bvh(buf, &val.1, first + 1, tri_offset);
            proof {
                let len2 = buf2.len() as int;
                lemma_bvh_frame(buf2, buf@, first as int, *val.0, tri_offset as int, first + 2, len2);
                lemma_bvh_widen(buf@, first as int, *val.0, tri_offset as int, first + 2, len2, first as int, buf@.len() as int);
                lemma_bvh_widen(buf@, first + 1, *val.1, tri_offset as int, len2, buf@.len() as int, first as int, buf@.len() as int);
                assert(buf@[idx as int] == buf1[idx as int]);
            }
        },
    }
}

/// Appends the entries of `ch`, if any, to `buf`, and returns where they
/// start, or `ABSENT`.
fn push_channel<A: Copy>(buf: &mut Vec<A>, ch: &Option<Vec<A>>) -> (offset: u32)
    requires
        ch matches Some(v) ==> old(buf).len() + v.len() < LIMIT,
    ensures
        channel_encoded(final(buf)@, offset, *ch),
        offset == channel_offset(*ch, old(buf)@.len()),
        old(buf)@.is_prefix_of(final(buf)@),
        final(buf).len() == old(buf).len() + match *ch {
            Some(v) => v.len() as int,
            None => 0,
        },
{
    match ch {
        Some(v) => {
            let offset = buf.len() as u32;
            let mut i: usize = 0;
            while i < v.len()
                invariant
                    i <= v.len(),
                    offset == old(buf).len(),
                    buf.len() == offset + i,
                    old(buf)@.is_prefix_of(buf@),
                    forall|j: int| 0 <= j < i ==> #[trigger] buf@[offset + j] == v@[j],
                decreases v.len() - i,
            {
                buf.push(v[i]);
                i = i + 1;
            }
            offset
        },
        None => ABSENT,
    }
}

/// Appends the corners of `tris` to `buf`, each shifted by `vert_offset`.
fn push_tris(buf: &mut Vec<u32>, tris: &Vec<[usize; 3]>, vert_offset: u32, n_verts: usize)
    requires
        forall|t: int, c: int|
            0 <= t < tris@.len() && 0 <= c < 3 ==> (#[trigger] tris@[t][c]) < n_verts,
        vert_offset + n_verts <= LIMIT,
        old(buf).len() + 3 * tris.len() <= LIMIT,
    ensures
        old(buf)@.is_prefix_of(final(buf)@),
        final(buf).len() == old(buf).len() + 3 * tris.len(),
        forall|t: int, c: int|
            0 <= t < tris@.len() && 0 <= c < 3 ==> #[trigger] final(buf)@[old(buf).len() + 3 * t + c]
                == tris@[t][c] + vert_offset,
{
    let start = buf.len();
    let mut t: usize = 0;
    while t < tris.len()
        invariant
            t <= tris.len(),
            start == old(buf).len(),
            buf.len() == start + 3 * t,
            start + 3 * tris.len() <= LIMIT,
            vert_offset + n_verts <= LIMIT,
            forall|t: int, c: int|
                0 <= t < tris@.len() && 0 <= c < 3 ==> (#[trigger] tris@[t][c]) < n_verts,
            old(buf)@.is_prefix_of(buf@),
            forall|t2: int, c: int|
                0 <= t2 < t && 0 <= c < 3 ==> #[trigger] buf@[start + 3 * t2 + c] == tris@[t2][c]
                    + vert_offset,
        decreases tris.len() - t,
    {
        let tri = tris[t];
        assert(tri[0] < n_verts && tri[1] < n_verts && tri[2] < n_verts) by {
            assert(tris@[t as int][0] < n_verts);
            assert(tris@[t as int][1] < n_verts);
            assert(tris@[t as int][2] < n_verts);
        }
        buf.push(tri[0] as u32 + vert_offset);
        buf.push(tri[1] as u32 + vert_offset);
        buf.push(tri[2] as u32 + vert_offset);
        proof {
            assert forall|t2: int, c: int|
                0 <= t2 < t + 1 && 0 <= c < 3 implies #[trigger] buf@[start + 3 * t2 + c]
                == tris@[t2][c] + vert_offset by {
                if t2 == t {
                    assert(c == 0 || c == 1 || c == 2);
                }
            }
        }
        t = t + 1;
    }
}

/// Whatever `a` encodes, a buffer set that extends it encodes too.
proof fn lemma_mesh_extends<M>(a: SceneBuffers<M>, b: SceneBuffers<M>, k: int, m: Mesh)
    requires
        a.mesh_encoded(k, m),
        b.extends(a),
    ensures
        b.mesh_encoded(k, m),
{
    let g = a.meshes@[k];
    assert(b.meshes@[k] == g);
    assert forall|t: int, c: int|
        0 <= t < m.tris@.len() && 0 <= c < 3 implies #[trigger] b.tris@[3 * (g.tri_offset + t) + c]
        == m.tris@[t][c] + g.vert_offset by {
        assert(a.tris@[3 * (g.tri_offset + t) + c] == m.tris@[t][c] + g.vert_offset);
    }
    assert forall|i: int| 0 <= i < m.verts@.len() implies #[trigger] b.verts@[g.vert_offset + i]
        == m.verts@[i] by {
        assert(a.verts@[g.vert_offset + i] == m.verts@[i]);
    }
    if let Some(v) = m.normals {
        assert forall|i: int| 0 <= i < v@.len() implies #[trigger] b.norms@[g.norm_offset + i]
            == v@[i] by {
            assert(a.norms@[g.norm_offset + i] == v@[i]);
        }
    }
    if let Some(v) = m.vert_cols {
        assert forall|i: int| 0 <= i < v@.len() implies #[trigger] b.vcols@[g.vcol_offset + i]
            == v@[i] by {
            assert(a.vcols@[g.vcol_offset + i] == v@[i]);
        }
    }
    if let Some(v) = m.vert_uv {
        assert forall|i: int| 0 <= i < v@.len() implies #[trigger] b.uvs@[g.uv_offset + i] == v@[i] by {
            assert(a.uvs@[g.uv_offset + i] == v@[i]);
        }
    }
    if let Some(bv) = m.bvh {
        let n = a.bvh@.len() as int;
        assert forall|j: int| 0 <= j < n implies #[trigger] b.bvh@[j] == a.bvh@[j] by {
            assert(a.bvh@[j] == b.bvh@.subrange(0, n)[j]);
        }
        lemma_bvh_frame(a.bvh@, b.bvh@, g.bvh_offset as int, bv, g.tri_offset as int, 0, n);
        lemma_bvh_widen(
            b.bvh@,
            g.bvh_offset as int,
            bv,
            g.tri_offset as int,
            0,
            n,
            0,
            b.bvh@.len() as int,
        );
    }
}

/// Adding a mesh at the end adds what it takes, and leaves the entries of
/// the earlier meshes as they were.
proof fn lemma_layout_push(ms: Seq<Mesh>, m: Mesh)
    ensures
        totals(ms.push(m)) == ({
            let t = totals(ms);
            (
                t.0 + m.tris@.len(),
                t.1 + m.verts@.len(),
                t.2 + channel_len(m.normals),
                t.3 + channel_len(m.vert_cols),
                t.4 + channel_len(m.vert_uv),
                t.5 + match m.bvh {
                    Some(b) => bvh_size(b),
                    None => 0,
                },
            )
        }),
        forall|k: int| 0 <= k < ms.len() ==> #[trigger] entry_at(ms.push(m), k) == entry_at(ms, k),
        ms.push(m).take(ms.len() as int) == ms,
{
    assert(ms.push(m).drop_last() == ms);
    assert forall|k: int| 0 <= k < ms.len() implies #[trigger] entry_at(ms.push(m), k) == entry_at(ms, k) by {
        assert(ms.push(m).take(k) == ms.take(k));
    }
    assert(ms.push(m).take(ms.len() as int) == ms);
}

/// Appends a copy of `mesh` to the buffers and returns the index of its
/// entry in `meshes`.
fn flatten_mesh<M>(out: &mut SceneBuffers<M>, mesh: &Mesh) -> (k: usize)
    requires
        mesh.wf(),
        old(out).fits(mesh_demand(*mesh)),
        old(out).tris@.len() % 3 == 0,
        old(out).laid_out(),
    ensures
        final(out).laid_out(),
        final(out).sources@ == old(out).sources@.push(*mesh),
        final(out).extends(*old(out)),
        final(out).grown_by(*old(out), mesh_demand(*mesh)),
        final(out).objects@ == old(out).objects@,
        final(out).tris@.len() % 3 == 0,
        k == old(out).meshes.len(),
        final(out).mesh_encoded(k as int, *mesh),
        final(out).meshes@ == old(out).meshes@.push(
            GpuMesh {
                num_tris: mesh.tris@.len() as u32,
                bvh_offset: match mesh.bvh {
                    Some(_) => old(out).bvh@.len() as u32,
                    None => ABSENT,
                },
                tri_offset: (old(out).tris@.len() / 3) as u32,
                vert_offset: old(out).verts@.len() as u32,
                norm_offset: channel_offset(mesh.normals, old(out).norms@.len()),
                vcol_offset: channel_offset(mesh.vert_cols, old(out).vcols@.len()),
                uv_offset: channel_offset(mesh.vert_uv, old(out).uvs@.len()),
            },
        ),
        final(out).tris@.len() == old(out).tris@.len() + 3 * mesh.tris@.len(),
        final(out).verts@.len() == old(out).verts@.len() + mesh.verts@.len(),
        final(out).norms@.len() == old(out).norms@.len() + channel_len(mesh.normals),
        final(out).vcols@.len() == old(out).vcols@.len() + channel_len(mesh.vert_cols),
        final(out).uvs@.len() == old(out).uvs@.len() + channel_len(mesh.vert_uv),
        final(out).bvh@.len() == old(out).bvh@.len() + match mesh.bvh {
            Some(b) => bvh_size(b) as int,
            None => 0,
        },
{
    let ghost start = *out;
    let n_tris = mesh.tris.len();
    let n_verts = mesh.verts.len();
    let tri_offset = (out.tris.len() / 3) as u32;
    let vert_offset = out.verts.len() as u32;
    push_tris(&mut out.tris, &mesh.tris, vert_offset, n_verts);
    let ghost with_tris = *out;
    let mut i: usize = 0;
    while i < n_verts
        invariant
            i <= n_verts == mesh.verts.len(),
            vert_offset == start.verts@.len(),
            out.verts@.len() == vert_offset + i,
            start.verts@.is_prefix_of(out.verts@),
            forall|j: int| 0 <= j < i ==> #[trigger] out.verts@[vert_offset + j] == mesh.verts@[j],
            out.objects == start.objects,
            out.sources == start.sources,
            out.tris == with_tris.tris,
            out.meshes == start.meshes,
            out.norms == start.norms,
            out.vcols == start.vcols,
            out.uvs == start.uvs,
            out.bvh == start.bvh,
            start.verts@.len() + mesh_demand(*mesh) <= LIMIT,
        decreases n_verts - i,
    {
        out.verts.push(mesh.verts[i]);
        i = i + 1;
    }
    let norm_offset = push_channel(&mut out.norms, &mesh.normals);
    let vcol_offset = push_channel(&mut out.vcols, &mesh.vert_cols);
    let uv_offset = push_channel(&mut out.uvs, &mesh.vert_uv);
    let bvh_offset = match &mesh.bvh {
        Some(b) => {
            proof {
                lemma_bvh_size(*b);
            }
            let offset = out.bvh.len();
            out.bvh.push(GpuBvh { min: b.min, max: b.max, children: 0, tri_count: 0 });
            flatten_bvh(&mut out.bvh, b, offset, tri_offset);
            proof {
                lemma_bvh_widen(
                    out.bvh@,
                    offset as int,
                    *b,
                    tri_offset as int,
                    offset + 1,
                    out.bvh@.len() as int,
                    0,
                    out.bvh@.len() as int,
                );
                assert(start.bvh@ =~= out.bvh@.subrange(0, start.bvh@.len() as int));
            }
            offset as u32
        },
        None => ABSENT,
    };
    let k = out.meshes.len();
    proof {
        lemma_layout_push(start.sources@, *mesh);
    }
    out.sources = Ghost(out.sources@.push(*mesh));
    out.meshes.push(
        GpuMesh {
            num_tris: n_tris as u32,
            bvh_offset,
            tri_offset,
            vert_offset,
            norm_offset,
            vcol_offset,
            uv_offset,
        },
    );
    assert(start.meshes@.is_prefix_of(out.meshes@));
    assert(start.tris@.is_prefix_of(out.tris@));
    proof {
        let t0 = start.tris@.len() as int;
        assert(3 * (tri_offset as int) == t0);
        assert forall|t: int, c: int|
            0 <= t < mesh.tris@.len() && 0 <= c < 3 implies #[trigger] out.tris@[3 * (
            tri_offset + t) + c] == mesh.tris@[t][c] + vert_offset by {
            assert(3 * (tri_offset + t) + c == t0 + 3 * t + c);
            assert(with_tris.tris@[t0 + 3 * t + c] == mesh.tris@[t][c] + vert_offset);
        }
        assert(channel_encoded(out.norms@, norm_offset, mesh.normals));
        assert(channel_encoded(out.vcols@, vcol_offset, mesh.vert_cols));
        assert(channel_encoded(out.uvs@, uv_offset, mesh.vert_uv));
    }
    assert(start.verts@.is_prefix_of(out.verts@));
    assert(start.norms@.is_prefix_of(out.norms@));
    assert(start.vcols@.is_prefix_of(out.vcols@));
    assert(start.uvs@.is_prefix_of(out.uvs@));
    assert(start.bvh@.is_prefix_of(out.bvh@));
    k
}

/// The mesh that a `Mesh` model shows.
pub open spec fn mesh_of(m: Model) -> Mesh
    recommends
        m is Mesh,
{
    *m->Mesh_0
}

/// The world transform of a parent, if any, as a pair of matrices.
pub open spec fn parent_view(p: Option<Transform>) -> Option<(Mat4, Mat4)> {
    match p {
        Some(t) => Some(t@),
        None => None,
    }
}

/// Every mesh in the cache is encoded at the index it is listed with.
pub open spec fn cache_ok<M>(out: SceneBuffers<M>, cache: Seq<(&Arc<Mesh>, usize)>) -> bool {
    forall|j: int| 0 <= j < cache.len() ==> out.mesh_encoded((#[trigger] cache[j]).1 as int, **cache[j].0)
}

/// The slot of `cache` that holds the allocation of `m`, if one does.
fn find_cached(cache: &Vec<(&Arc<Mesh>, usize)>, m: &Arc<Mesh>) -> (r: Option<usize>)
    ensures
        r matches Some(j) ==> j < cache.len() && **cache@[j as int].0 == **m,
{
    let mut j: usize = 0;
    while j < cache.len()
        invariant
            j <= cache.len(),
        decreases cache.len() - j,
    {
        if same_allocation(cache[j].0, m) {
            return Some(j);
        }
        j = j + 1;
    }
    None
}

/// `mesh_demand(*m)`, computed.
fn mesh_demand_of(m: &Mesh) -> (r: u128)
    ensures
        r == mesh_demand(*m),
        r <= 9 * (usize::MAX as u128) + 1,
{
    5 * (m.tris.len() as u128) + 4 * (m.verts.len() as u128) + 1
}

/// Whether every buffer of `out` can take `d` more entries.
fn has_room<M>(out: &SceneBuffers<M>, d: u128) -> (r: bool)
    ensures
        r == out.fits(d as int),
{
    let limit = LIMIT as u128;
    if d > limit {
        return false;
    }
    let room = limit - d;
    out.objects.len() as u128 <= room && out.meshes.len() as u128 <= room && out.tris.len() as u128
        <= room && out.verts.len() as u128 <= room && out.norms.len() as u128 <= room
        && out.vcols.len() as u128 <= room && out.uvs.len() as u128 <= room && out.bvh.len() as u128
        <= room
}

/// Demand adds up over concatenation.
proof fn lemma_demand_append<M>(a: Seq<Shown<M>>, b: Seq<Shown<M>>)
    ensures
        shown_demand(a + b) == shown_demand(a) + shown_demand(b),
    decreases b.len(),
{
    if b.len() > 0 {
        lemma_demand_append(a, b.drop_last());
        assert((a + b).drop_last() == a + b.drop_last());
    }
}

/// Demand is never negative.
proof fn lemma_demand_nonneg<M>(a: Seq<Shown<M>>)
    ensures
        shown_demand(a) >= 0,
    decreases a.len(),
{
    if a.len() > 0 {
        lemma_demand_nonneg(a.drop_last());
    }
}

/// What the first `i` nodes show comes first in what all of them show.
proof fn lemma_shown_prefix<M>(nodes: Seq<Node<M>>, i: int, parent: Option<(Mat4, Mat4)>)
    requires
        0 <= i <= nodes.len(),
    ensures
        shown(nodes.take(i), parent).is_prefix_of(shown(nodes, parent)),
    decreases nodes.len() - i,
{
    if i < nodes.len() {
        lemma_shown_prefix(nodes, i + 1, parent);
        assert(nodes.take(i + 1).drop_last() == nodes.take(i));
        let a = shown(nodes.take(i), parent);
        let b = shown(nodes.take(i + 1), parent);
        assert(a.is_prefix_of(b));
    } else {
        assert(nodes.take(i) == nodes);
    }
}

/// The demand of a single shown object.
proof fn lemma_demand_single<M>(x: Shown<M>)
    ensures
        shown_demand(seq![x]) == 1 + match x.model {
            Model::Mesh(m) => mesh_demand(*m),
            _ => 0,
        },
{
    reveal_with_fuel(shown_demand, 2);
    assert(seq![x].drop_last() =~= Seq::<Shown<M>>::empty());
    assert(seq![x].last() == x);
}

/// Encodings of two consecutive runs of objects make one of both.
proof fn lemma_objects_concat<M>(b: SceneBuffers<M>, start: int, s1: Seq<Shown<M>>, s2: Seq<Shown<M>>)
    requires
        b.objects_encoded(start, s1),
        b.objects_encoded(start + s1.len(), s2),
    ensures
        b.objects_encoded(start, s1 + s2),
{
    assert forall|j: int| 0 <= j < (s1 + s2).len() implies b.object_encoded(
        #[trigger] b.objects@[start + j],
        (s1 + s2)[j],
    ) by {
        if j >= s1.len() {
            assert(b.objects@[start + j] == b.objects@[(start + s1.len()) + (j - s1.len())]);
        }
    }
}

/// An object encoding survives the extension of the buffers.
proof fn lemma_object_extends<M>(a: SceneBuffers<M>, b: SceneBuffers<M>, o: GpuObject<M>, s: Shown<M>)
    requires
        a.object_encoded(o, s),
        b.extends(a),
    ensures
        b.object_encoded(o, s),
{
    if s.model is Mesh {
        lemma_mesh_extends(a, b, o.model_index as int, mesh_of(s.model));
    }
}

/// A run of object encodings survives the extension of the buffers.
proof fn lemma_objects_extend<M>(a: SceneBuffers<M>, b: SceneBuffers<M>, start: int, s: Seq<Shown<M>>)
    requires
        a.objects_encoded(start, s),
        b.extends(a),
    ensures
        b.objects_encoded(start, s),
{
    assert forall|j: int| 0 <= j < s.len() implies b.object_encoded(
        #[trigger] b.objects@[start + j],
        s[j],
    ) by {
        assert(b.objects@[start + j] == a.objects@[start + j]);
        lemma_object_extends(a, b, a.objects@[start + j], s[j]);
    }
}

/// The cache stays valid when the buffers are extended.
proof fn lemma_cache_extends<M>(a: SceneBuffers<M>, b: SceneBuffers<M>, cache: Seq<(&Arc<Mesh>, usize)>)
    requires
        cache_ok(a, cache),
        b.extends(a),
    ensures
        cache_ok(b, cache),
{
    assert forall|j: int| 0 <= j < cache.len() implies b.mesh_encoded(
        (#[trigger] cache[j]).1 as int,
        **cache[j].0,
    ) by {
        lemma_mesh_extends(a, b, cache[j].1 as int, **cache[j].0);
    }
}

/// The objects that `n` and its descendants show, under a parent whose
/// world transform is `parent`.
pub open spec fn node_shown<M>(n: Node<M>, parent: Option<(Mat4, Mat4)>) -> Seq<Shown<M>> {
    let t = placed(parent, n.transform@);
    let own = if n.model is Empty {
        seq![]
    } else {
        seq![Shown { transform: t, prop: n.prop, model: n.model }]
    };
    own + shown(n.children@, Some(t))
}

/// The meshes `ms` from index `lo` on are each the mesh of a shown object
/// of `s`.
pub open spec fn from_shown<M>(ms: Seq<Mesh>, lo: int, s: Seq<Shown<M>>) -> bool {
    forall|k: int|
        lo <= k < ms.len() ==> exists|j: int|
            0 <= j < s.len() && (#[trigger] s[j]).model is Mesh && mesh_of(s[j].model) == #[trigger] ms[k]
}

/// Being a prefix is transitive.
proof fn lemma_prefix_trans(a: Seq<Mesh>, b: Seq<Mesh>, c: Seq<Mesh>)
    requires
        a.is_prefix_of(b),
        b.is_prefix_of(c),
    ensures
        a.is_prefix_of(c),
{
    assert forall|i: int| 0 <= i < a.len() implies a[i] == c[i] by {
        assert(a[i] == b.subrange(0, a.len() as int)[i]);
        assert(b[i] == c.subrange(0, b.len() as int)[i]);
    }
    assert(a =~= c.subrange(0, a.len() as int));
}

/// What `flatten_nodes` and `flatten_node` promise, for the shown objects
/// `s`.
pub open spec fn flattened<M>(
    old_out: SceneBuffers<M>,
    out: SceneBuffers<M>,
    s: Seq<Shown<M>>,
    r: Result<(), FlattenError>,
) -> bool {
    &&& old_out.sources@.is_prefix_of(out.sources@)
    &&& r is Ok ==> {
        &&& from_shown(out.sources@, old_out.sources@.len() as int, s)
        &&& out.objects@.len() == old_out.objects@.len() + s.len()
        &&& out.objects_encoded(old_out.objects@.len() as int, s)
        &&& out.grown_by(old_out, shown_demand(s))
    }
    &&& r == Err::<(), FlattenError>(FlattenError::TooLarge) ==> !old_out.fits(shown_demand(s))
    &&& r == Err::<(), FlattenError>(FlattenError::InvalidMesh) ==> !shown_meshes_wf(s)
}

/// Appends the object shown by `node`, if any, and those of its
/// descendants, flattening each mesh whose allocation is not in `cache`
/// yet.
#[verifier::rlimit(60)]
fn flatten_node<'a, M: Copy>(
    out: &mut SceneBuffers<M>,
    cache: &mut Vec<(&'a Arc<Mesh>, usize)>,
    parent: Option<Transform>,
    node: &'a Node<M>,
) -> (r: Result<(), FlattenError>)
    requires
        cache_ok(*old(out), old(cache)@),
        old(out).tris@.len() % 3 == 0,
        old(out).fits(0),
        old(out).laid_out(),
    ensures
        final(out).extends(*old(out)),
        cache_ok(*final(out), final(cache)@),
        final(out).tris@.len() % 3 == 0,
        final(out).fits(0),
        final(out).laid_out(),
        flattened(*old(out), *final(out), node_shown(*node, parent_view(parent)), r),
    decreases node,
{
    let ghost pv = parent_view(parent);
    let ghost start = *out;
    let ghost n0 = out.objects@.len() as int;
    let t = match parent {
        Some(p) => p.mul(node.transform),
        None => node.transform,
    };
    let ghost own = if node.model is Empty {
        seq![]
    } else {
        seq![Shown { transform: t@, prop: node.prop, model: node.model }]
    };
    let ghost children = shown(node.children@, Some(t@));
    assert(node_shown(*node, pv) == own + children);
    proof {
        if own.len() > 0 {
            lemma_demand_single(own[0]);
            assert(own == seq![own[0]]);
        } else {
            assert(shown_demand(own) == 0);
        }
        lemma_demand_append(own, children);
        lemma_demand_nonneg(children);
    }
    match &node.model {
        Model::Empty => {},
        Model::Mesh(a) => {
            let d = mesh_demand_of(a);
            if !has_room(out, d + 1) {
                return Err(FlattenError::TooLarge);
            }
            proof {
                assert(node_shown(*node, pv)[0] == own[0]);
            }
            let index = match find_cached(cache, a) {
                Some(j) => cache[j].1,
                None => {
                    if !a.is_wf() {
                        return Err(FlattenError::InvalidMesh);
                    }
                    let ghost pre = *out;
                    let k = flatten_mesh(out, a);
                    proof {
                        lemma_cache_extends(pre, *out, cache@);
                    }
                    cache.push((a, k));
                    k
                },
            };
            let ghost mid = *out;
            out.objects.push(
                GpuObject {
                    transform: t,
                    prop: node.prop,
                    model_type: GpuObjectType::Mesh.code(),
                    model_index: index as u32,
                },
            );
            proof {
                assert(mid.objects@.is_prefix_of(out.objects@));
                lemma_cache_extends(mid, *out, cache@);
                lemma_mesh_extends(mid, *out, index as int, mesh_of(node.model));
            }
        },
        Model::Sphere => {
            if !has_room(out, 1) {
                return Err(FlattenError::TooLarge);
            }
            let ghost mid = *out;
            out.objects.push(
                GpuObject {
                    transform: t,
                    prop: node.prop,
                    model_type: GpuObjectType::Sphere.code(),
                    model_index: 0,
                },
            );
            proof {
                assert(mid.objects@.is_prefix_of(out.objects@));
                lemma_cache_extends(mid, *out, cache@);
            }
        },
        Model::Plane => {
            if !has_room(out, 1) {
                return Err(FlattenError::TooLarge);
            }
            let ghost mid = *out;
            out.objects.push(
                GpuObject {
                    transform: t,
                    prop: node.prop,
                    model_type: GpuObjectType::Plane.code(),
                    model_index: 0,
                },
            );
            proof {
                assert(mid.objects@.is_prefix_of(out.objects@));
                lemma_cache_extends(mid, *out, cache@);
            }
        },
    }
    assert(out.objects_encoded(n0, own));
    assert(out.grown_by(start, shown_demand(own)));
    proof {
        assert(start.sources@.is_prefix_of(out.sources@)) by {
            assert(start.sources@ =~= out.sources@.subrange(0, start.sources@.len() as int));
        }
        assert forall|k: int| start.sources@.len() <= k < out.sources@.len() implies exists|j: int|
            0 <= j < (own + children).len() && (#[trigger] (own + children)[j]).model is Mesh
                && mesh_of((own + children)[j].model) == #[trigger] out.sources@[k] by {
            assert((own + children)[0] == own[0]);
        }
    }
    let ghost after_own = *out;
    let r = flatten_nodes(out, cache, Some(t), &node.children);
    proof {
        lemma_prefix_trans(start.sources@, after_own.sources@, out.sources@);
        if r is Ok {
            let sh = own + children;
            assert forall|k: int| start.sources@.len() <= k < out.sources@.len() implies exists|j: int|
                0 <= j < sh.len() && (#[trigger] sh[j]).model is Mesh && mesh_of(sh[j].model)
                    == #[trigger] out.sources@[k] by {
                if k < after_own.sources@.len() {
                    assert(out.sources@[k] == out.sources@.subrange(0, after_own.sources@.len() as int)[k]);
                    let j = choose|j: int|
                        0 <= j < sh.len() && (#[trigger] sh[j]).model is Mesh && mesh_of(sh[j].model)
                            == after_own.sources@[k];
                    assert(sh[j] == sh[j]);
                } else {
                    let j = choose|j: int|
                        0 <= j < children.len() && (#[trigger] children[j]).model is Mesh && mesh_of(
                            children[j].model,
                        ) == out.sources@[k];
                    assert(sh[own.len() + j] == children[j]);
                }
            }
        }
        if !shown_meshes_wf(children) {
            let k = choose|k: int| 0 <= k < children.len() && !((#[trigger] children[k]).model matches Model::Mesh(m) ==> m.wf());
            assert(node_shown(*node, pv)[own.len() + k] == children[k]);
        }
        if r is Ok {
            lemma_objects_extend(after_own, *out, n0, own);
            lemma_objects_concat(*out, n0, own, children);
        }
    }
    r
}

/// Appends the objects shown by `nodes` and their descendants, under a
/// parent placed by `parent`, flattening each mesh whose allocation is not
/// in `cache` yet.
fn flatten_nodes<'a, M: Copy>(
    out: &mut SceneBuffers<M>,
    cache: &mut Vec<(&'a Arc<Mesh>, usize)>,
    parent: Option<Transform>,
    nodes: &'a Vec<Node<M>>,
) -> (r: Result<(), FlattenError>)
    requires
        cache_ok(*old(out), old(cache)@),
        old(out).tris@.len() % 3 == 0,
        old(out).fits(0),
        old(out).laid_out(),
    ensures
        final(out).extends(*old(out)),
        cache_ok(*final(out), final(cache)@),
        final(out).tris@.len() % 3 == 0,
        final(out).fits(0),
        final(out).laid_out(),
        flattened(*old(out), *final(out), shown(nodes@, parent_view(parent)), r),
    decreases nodes@,
{
    let ghost pv = parent_view(parent);
    let ghost start = *out;
    let ghost n0 = out.objects@.len() as int;
    let mut i: usize = 0;
    while i < nodes.len()
        invariant
            i <= nodes.len(),
            pv == parent_view(parent),
            start == *old(out),
            n0 == start.objects@.len(),
            out.extends(start),
            cache_ok(*out, cache@),
            out.tris@.len() % 3 == 0,
            out.fits(0),
            out.laid_out(),
            start.sources@.is_prefix_of(out.sources@),
            from_shown(out.sources@, start.sources@.len() as int, shown(nodes@.take(i as int), pv)),
            out.objects@.len() == n0 + shown(nodes@.take(i as int), pv).len(),
            out.objects_encoded(n0, shown(nodes@.take(i as int), pv)),
            out.grown_by(start, shown_demand(shown(nodes@.take(i as int), pv))),
        decreases nodes.len() - i,
    {
        let node: &'a Node<M> = &nodes[i];
        let ghost before = *out;
        let ghost done = shown(nodes@.take(i as int), pv);
        let ghost here = node_shown(*node, pv);
        let ghost whole = shown(nodes@, pv);
        proof {
            assert(nodes@.take(i + 1).drop_last() == nodes@.take(i as int));
            assert(shown(nodes@.take(i + 1), pv) == done + here);
            lemma_shown_prefix(nodes@, i + 1, pv);
            let rest = whole.skip((done + here).len() as int);
            assert(done + here + rest == whole);
            lemma_demand_append(done, here);
            lemma_demand_append(done + here, rest);
            lemma_demand_nonneg(done);
            lemma_demand_nonneg(here);
            lemma_demand_nonneg(rest);
        }
        let r = flatten_node(out, cache, parent, node);
        proof {
            lemma_prefix_trans(start.sources@, before.sources@, out.sources@);
        }
        if r.is_err() {
            proof {
                if !shown_meshes_wf(here) {
                    let k = choose|k: int| 0 <= k < here.len() && !((#[trigger] here[k]).model matches Model::Mesh(m) ==> m.wf());
                    assert(whole[done.len() + k] == here[k]);
                }
            }
            return r;
        }
        proof {
            lemma_objects_extend(before, *out, n0, done);
            lemma_objects_concat(*out, n0, done, here);
            let sh = done + here;
            assert forall|k: int| start.sources@.len() <= k < out.sources@.len() implies exists|j: int|
                0 <= j < sh.len() && (#[trigger] sh[j]).model is Mesh && mesh_of(sh[j].model)
                    == #[trigger] out.sources@[k] by {
                if k < before.sources@.len() {
                    assert(out.sources@[k] == out.sources@.subrange(0, before.sources@.len() as int)[k]);
                    let j = choose|j: int|
                        0 <= j < done.len() && (#[trigger] done[j]).model is Mesh && mesh_of(done[j].model)
                            == before.sources@[k];
                    assert(sh[j] == done[j]);
                } else {
                    let j = choose|j: int|
                        0 <= j < here.len() && (#[trigger] here[j]).model is Mesh && mesh_of(here[j].model)
                            == out.sources@[k];
                    assert(sh[done.len() + j] == here[j]);
                }
            }
        }
        i = i + 1;
    }
    assert(nodes@.take(nodes.len() as int) == nodes@);
    Ok(())
}

/// The entry that stands in `meshes` when no mesh is shown.
pub open spec fn placeholder_mesh() -> GpuMesh {
    GpuMesh {
        num_tris: 0,
        bvh_offset: 0,
        tri_offset: 0,
        vert_offset: 0,
        norm_offset: 0,
        vcol_offset: 0,
        uv_offset: 0,
    }
}

impl<M> SceneBuffers<M> {
    /// Each buffer of `self` is that of `raw`, or, where that one is empty,
    /// a single placeholder record.
    pub open spec fn padded_from(self, raw: SceneBuffers<M>) -> bool {
        &&& if raw.objects@.len() == 0 {
            &&& self.objects@.len() == 1
            &&& self.objects@[0].model_type == 0
            &&& self.objects@[0].model_index == 0
        } else {
            self.objects@ == raw.objects@
        }
        &&& if raw.meshes@.len() == 0 {
            self.meshes@ == seq![placeholder_mesh()]
        } else {
            self.meshes@ == raw.meshes@
        }
        &&& if raw.tris@.len() == 0 {
            self.tris@ == seq![0u32]
        } else {
            self.tris@ == raw.tris@
        }
        &&& if raw.verts@.len() == 0 {
            self.verts@.len() == 1
        } else {
            self.verts@ == raw.verts@
        }
        &&& if raw.norms@.len() == 0 {
            self.norms@.len() == 1
        } else {
            self.norms@ == raw.norms@
        }
        &&& if raw.vcols@.len() == 0 {
            self.vcols@.len() == 1
        } else {
            self.vcols@ == raw.vcols@
        }
        &&& if raw.uvs@.len() == 0 {
            self.uvs@.len() == 1
        } else {
            self.uvs@ == raw.uvs@
        }
        &&& if raw.bvh@.len() == 0 {
            &&& self.bvh@.len() == 1
            &&& self.bvh@[0].children == 0
            &&& self.bvh@[0].tri_count == 0
        } else {
            self.bvh@ == raw.bvh@
        }
    }

    /// No buffer is empty.
    pub open spec fn none_empty(self) -> bool {
        &&& self.objects@.len() >= 1
        &&& self.meshes@.len() >= 1
        &&& self.tris@.len() >= 1
        &&& self.verts@.len() >= 1
        &&& self.norms@.len() >= 1
        &&& self.vcols@.len() >= 1
        &&& self.uvs@.len() >= 1
        &&& self.bvh@.len() >= 1
    }
}

/// Appends one placeholder record to each empty buffer.
fn pad<M: Default>(out: &mut SceneBuffers<M>)
    ensures
        final(out).padded_from(*old(out)),
        final(out).object_count == old(out).object_count,
        final(out).sources == old(out).sources,
{
    let ghost raw = *out;
    if out.objects.len() == 0 {
        out.objects.push(
            GpuObject {
                transform: Transform::new(mat4_identity()),
                prop: M::default(),
                model_type: 0,
                model_index: 0,
            },
        );
    }
    if out.meshes.len() == 0 {
        out.meshes.push(
            GpuMesh {
                num_tris: 0,
                bvh_offset: 0,
                tri_offset: 0,
                vert_offset: 0,
                norm_offset: 0,
                vcol_offset: 0,
                uv_offset: 0,
            },
        );
    }
    if out.tris.len() == 0 {
        out.tris.push(0);
    }
    if out.verts.len() == 0 {
        out.verts.push(vec3_zero());
    }
    if out.norms.len() == 0 {
        out.norms.push(vec3_zero());
    }
    if out.vcols.len() == 0 {
        out.vcols.push(vec3_zero());
    }
    if out.uvs.len() == 0 {
        out.uvs.push(vec2_zero());
    }
    if out.bvh.len() == 0 {
        out.bvh.push(GpuBvh { min: vec3_zero(), max: vec3_zero(), children: 0, tri_count: 0 });
    }
    proof {
        if raw.meshes@.len() == 0 {
            assert(out.meshes@ =~= seq![placeholder_mesh()]);
        }
        if raw.tris@.len() == 0 {
            assert(out.tris@ =~= seq![0u32]);
        }
    }
}

/// A padded buffer set encodes what the unpadded one did.
proof fn lemma_padded_extends<M>(raw: SceneBuffers<M>, b: SceneBuffers<M>)
    requires
        b.padded_from(raw),
    ensures
        b.extends(raw),
{
    assert(raw.objects@.is_prefix_of(b.objects@));
    assert(raw.meshes@.is_prefix_of(b.meshes@));
    assert(raw.tris@.is_prefix_of(b.tris@));
    assert(raw.verts@.is_prefix_of(b.verts@));
    assert(raw.norms@.is_prefix_of(b.norms@));
    assert(raw.vcols@.is_prefix_of(b.vcols@));
    assert(raw.uvs@.is_prefix_of(b.uvs@));
    assert(raw.bvh@.is_prefix_of(b.bvh@));
}

/// `b` is a flattening of the scene whose root nodes are `nodes`: one object
/// per shown object, in order, each mesh encoded where its objects point,
/// and every buffer padded to at least one record.
pub open spec fn scene_flattened<M>(nodes: Seq<Node<M>>, b: SceneBuffers<M>) -> bool {
    let s = shown(nodes, None);
    let ms = b.sources@;
    let t = totals(ms);
    &&& b.object_count == s.len()
    &&& b.fits(0)
    &&& b.objects_encoded(0, s)
    &&& from_shown(ms, 0, s)
    &&& if s.len() == 0 {
        &&& b.objects@.len() == 1
        &&& b.objects@[0].model_type == 0
        &&& b.objects@[0].model_index == 0
    } else {
        b.objects@.len() == s.len()
    }
    &&& if ms.len() == 0 {
        b.meshes@ == seq![placeholder_mesh()]
    } else {
        &&& b.meshes@.len() == ms.len()
        &&& forall|k: int| 0 <= k < ms.len() ==> #[trigger] b.meshes@[k] == entry_at(ms, k)
    }
    &&& if t.0 == 0 {
        b.tris@ == seq![0u32]
    } else {
        b.tris@.len() == 3 * t.0
    }
    &&& b.verts@.len() == if t.1 == 0 {
        1
    } else {
        t.1
    }
    &&& b.norms@.len() == if t.2 == 0 {
        1
    } else {
        t.2
    }
    &&& b.vcols@.len() == if t.3 == 0 {
        1
    } else {
        t.3
    }
    &&& b.uvs@.len() == if t.4 == 0 {
        1
    } else {
        t.4
    }
    &&& if t.5 == 0 {
        &&& b.bvh@.len() == 1
        &&& b.bvh@[0].children == 0
        &&& b.bvh@[0].tri_count == 0
    } else {
        b.bvh@.len() == t.5
    }
    &&& s.len() == 0 ==> ms.len() == 0
}

/// Two flattenings of one scene agree on the object count and on every
/// object's world transform, material and kind of model.
pub proof fn lemma_flattening_objects_agree<M>(
    nodes: Seq<Node<M>>,
    b1: SceneBuffers<M>,
    b2: SceneBuffers<M>,
)
    requires
        scene_flattened(nodes, b1),
        scene_flattened(nodes, b2),
    ensures
        b1.object_count == b2.object_count,
        forall|j: int|
            0 <= j < b1.object_count ==> {
                &&& (#[trigger] b1.objects@[j]).transform@ == b2.objects@[j].transform@
                &&& b1.objects@[j].prop == b2.objects@[j].prop
                &&& b1.objects@[j].model_type == b2.objects@[j].model_type
            },
{
    let s = shown(nodes, None);
    assert forall|j: int| 0 <= j < b1.object_count implies {
        &&& (#[trigger] b1.objects@[j]).transform@ == b2.objects@[j].transform@
        &&& b1.objects@[j].prop == b2.objects@[j].prop
        &&& b1.objects@[j].model_type == b2.objects@[j].model_type
    } by {
        assert(b1.object_encoded(b1.objects@[0 + j], s[j]));
        assert(b2.object_encoded(b2.objects@[0 + j], s[j]));
    }
}

/// Flattens the scene whose root nodes are `nodes` into the buffers the
/// shader reads.
///
/// The objects are the nodes with a model, in depth-first order, each with
/// its world transform: its ancestors' transforms, root first, then its
/// own. Each mesh allocation is copied once, however many nodes show it;
/// allocations are told apart by address, which the contract does not see,
/// so it states only that each object points at a copy of its mesh. Every
/// buffer that would stay empty gets one placeholder record.
pub fn flatten_scene<M: Copy + Default>(nodes: &Vec<Node<M>>) -> (r: Result<
    SceneBuffers<M>,
    FlattenError,
>)
    ensures
        r matches Err(e) ==> match e {
            FlattenError::TooLarge => shown_demand(shown(nodes@, None)) > LIMIT,
            FlattenError::InvalidMesh => !shown_meshes_wf(shown(nodes@, None)),
        },
        r matches Ok(b) ==> scene_flattened(nodes@, b),
{
    let mut out = SceneBuffers {
        objects: Vec::new(),
        object_count: 0,
        meshes: Vec::new(),
        tris: Vec::new(),
        verts: Vec::new(),
        norms: Vec::new(),
        vcols: Vec::new(),
        uvs: Vec::new(),
        bvh: Vec::new(),
        sources: Ghost(Seq::empty()),
    };
    let mut cache: Vec<(&Arc<Mesh>, usize)> = Vec::new();
    let ghost empty = out;
    let r = flatten_nodes(&mut out, &mut cache, None, nodes);
    if let Err(e) = r {
        return Err(e);
    }
    let ghost s = shown(nodes@, None);
    proof {
        lemma_demand_nonneg(s);
        if s.len() == 0 {
            assert(shown_demand(s) == 0);
        }
    }
    out.object_count = out.objects.len() as u32;
    let ghost raw = out;
    pad(&mut out);
    proof {
        lemma_padded_extends(raw, out);
        lemma_objects_extend(raw, out, 0, s);
        assert(out.padded_from(raw));
        assert(raw.laid_out());
        if s.len() == 0 && out.sources@.len() > 0 {
            assert(from_shown(out.sources@, 0, s));
            assert(exists|j: int|
                0 <= j < s.len() && (#[trigger] s[j]).model is Mesh && mesh_of(s[j].model)
                    == out.sources@[0]);
        }
    }
    Ok(out)
}

} // verus!
