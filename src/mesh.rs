//! Triangle meshes and the bounding-volume hierarchy built over them.
use crate::builder::{lemma_perm_bounds, tree_of, BvhBuilder};
use glam::{Vec2, Vec3};
use vstd::prelude::*;

verus! {

/// Bounding-volume hierarchy over a contiguous range of a mesh's triangles.
#[derive(Debug)]
pub struct Bvh {
    pub min: Vec3,
    pub max: Vec3,
    pub content: BvhContent,
}

/// Either two child boxes over adjacent ranges, or a range of triangles.
#[derive(Debug)]
pub enum BvhContent {
    Node((Box<Bvh>, Box<Bvh>)),
    Leaf(BvhLeaf),
}

/// Leaf of a bounding-volume hierarchy: the triangles `begin..end`.
#[derive(Debug, Clone, Copy, PartialEq, Eq)]
pub struct BvhLeaf {
    pub begin: usize,
    pub end: usize,
}

/// Nodes this deep are never split.
pub const MAX_DEPTH: usize = 32;

/// A range of at most twice this many triangles is never split.
pub const MIN_TRI: usize = 2;

impl Bvh {
    /// Index of the first triangle covered.
    pub open spec fn first(self) -> int
        decreases self,
    {
        match self.content {
            BvhContent::Leaf(l) => l.begin as int,
            BvhContent::Node(p) => p.0.first(),
        }
    }

    /// One past the index of the last triangle covered.
    pub open spec fn last(self) -> int
        decreases self,
    {
        match self.content {
            BvhContent::Leaf(l) => l.end as int,
            BvhContent::Node(p) => p.1.last(),
        }
    }

    /// Every leaf holds at least one triangle, and the two children of a
    /// node cover adjacent ranges, the first child's before the second's.
    pub open spec fn wf(self) -> bool
        decreases self,
    {
        match self.content {
            BvhContent::Leaf(l) => l.begin < l.end,
            BvhContent::Node(p) => p.0.wf() && p.1.wf() && p.0.last() == p.1.first(),
        }
    }

    /// Number of edges on the longest path from this node down to a leaf.
    pub open spec fn height(self) -> nat
        decreases self,
    {
        match self.content {
            BvhContent::Leaf(_) => 0,
            BvhContent::Node(p) => 1 + vstd::math::max(
                p.0.height() as int,
                p.1.height() as int,
            ) as nat,
        }
    }

    /// Every node that was split covered more than `2 * MIN_TRI` triangles.
    pub open spec fn splits_large_only(self) -> bool
        decreases self,
    {
        match self.content {
            BvhContent::Leaf(_) => true,
            BvhContent::Node(p) => {
                &&& p.1.last() - p.0.first() > 2 * MIN_TRI
                &&& p.0.splits_large_only()
                &&& p.1.splits_large_only()
            },
        }
    }

    /// The triangle indices of all leaves, leaf after leaf, left to right.
    pub open spec fn leaf_indices(self) -> Seq<int>
        decreases self,
    {
        match self.content {
            BvhContent::Leaf(l) => Seq::new((l.end - l.begin) as nat, |k: int| l.begin + k),
            BvhContent::Node(p) => p.0.leaf_indices() + p.1.leaf_indices(),
        }
    }

    /// Placed at depth `depth`, no leaf lies deeper than `MAX_DEPTH`, and
    /// no node at depth `MAX_DEPTH` or deeper has children.
    pub open spec fn depth_bounded(self, depth: int) -> bool
        decreases self,
    {
        match self.content {
            BvhContent::Leaf(_) => depth <= MAX_DEPTH,
            BvhContent::Node(p) => {
                &&& depth < MAX_DEPTH
                &&& p.0.depth_bounded(depth + 1)
                &&& p.1.depth_bounded(depth + 1)
            },
        }
    }

    /// Every split gave two children with at least one triangle each.
    pub open spec fn splits_nonempty(self) -> bool
        decreases self,
    {
        match self.content {
            BvhContent::Leaf(_) => true,
            BvhContent::Node(p) => {
                &&& p.0.first() < p.0.last()
                &&& p.1.first() < p.1.last()
                &&& p.0.splits_nonempty()
                &&& p.1.splits_nonempty()
            },
        }
    }

    /// What a finished build promises of a hierarchy over the triangles
    /// `begin..end`, built from depth `depth`.
    pub open spec fn built_over(self, begin: int, end: int, depth: int) -> bool {
        &&& self.wf()
        &&& self.first() == begin
        &&& self.last() == end
        &&& self.height() + depth <= MAX_DEPTH
        &&& self.splits_large_only()
    }
}

impl BvhContent {
    /// The two children of a node.
    pub fn as_node(&self) -> (r: Option<&(Box<Bvh>, Box<Bvh>)>)
        ensures
            r is Some <==> self is Node,
            r is Some ==> *r->0 == self->Node_0,
    {
        match self {
            BvhContent::Node(val) => Some(val),
            _ => None,
        }
    }

    /// The range of a leaf.
    pub fn as_leaf(&self) -> (r: Option<&BvhLeaf>)
        ensures
            r is Some <==> self is Leaf,
            r is Some ==> *r->0 == self->Leaf_0,
    {
        match self {
            BvhContent::Leaf(val) => Some(val),
            _ => None,
        }
    }
}

/// A well-formed hierarchy covers a non-empty range.
pub proof fn lemma_range_nonempty(b: Bvh)
    requires
        b.wf(),
    ensures
        b.first() < b.last(),
    decreases b,
{
    if let BvhContent::Node(p) = b.content {
        lemma_range_nonempty(*p.0);
        lemma_range_nonempty(*p.1);
    }
}

/// The leaves of a well-formed hierarchy cover its range, each index once
/// and in order.
pub proof fn lemma_leaves_cover_range(b: Bvh)
    requires
        b.wf(),
    ensures
        b.leaf_indices() == Seq::new((b.last() - b.first()) as nat, |k: int| b.first() + k),
    decreases b,
{
    lemma_range_nonempty(b);
    if let BvhContent::Node(p) = b.content {
        lemma_leaves_cover_range(*p.0);
        lemma_leaves_cover_range(*p.1);
        lemma_range_nonempty(*p.0);
        lemma_range_nonempty(*p.1);
        assert(b.leaf_indices() =~= Seq::new(
            (b.last() - b.first()) as nat,
            |k: int| b.first() + k,
        ));
    }
}

/// Triangle mesh for the ray tracer.
#[derive(Debug)]
pub struct Mesh {
    /// Bounding-volume hierarchy over `tris`, once built.
    pub bvh: Option<Bvh>,
    /// Triangles, as three indices into `verts`.
    pub tris: Vec<[usize; 3]>,
    /// Vertex positions.
    pub verts: Vec<Vec3>,
    /// Vertex normals, one per vertex.
    pub normals: Option<Vec<Vec3>>,
    /// Vertex colours, one per vertex.
    pub vert_cols: Option<Vec<Vec3>>,
    /// Vertex texture coordinates, one per vertex.
    pub vert_uv: Option<Vec<Vec2>>,
}

impl Mesh {
    /// Every corner names a vertex, each per-vertex channel has one entry
    /// per vertex, and a hierarchy, if any, covers all triangles.
    pub open spec fn wf(self) -> bool {
        &&& forall|t: int, c: int|
            0 <= t < self.tris@.len() && 0 <= c < 3 ==> (#[trigger] self.tris@[t][c]) < self.verts@.len()
        &&& self.normals matches Some(n) ==> n@.len() == self.verts@.len()
        &&& self.vert_cols matches Some(n) ==> n@.len() == self.verts@.len()
        &&& self.vert_uv matches Some(n) ==> n@.len() == self.verts@.len()
        &&& self.bvh matches Some(b) ==> b.built_over(0, self.tris@.len() as int, 0)
    }

    /// Attaches the hierarchy that `builder` built over this mesh's
    /// triangles, with the box `bounds[k]` for node `k`, and puts the
    /// triangles in the builder's order. Returns false, changing nothing,
    /// unless the builder covers exactly this mesh's triangles and there is
    /// one box per node.
    pub fn create_bvh(&mut self, builder: &BvhBuilder, bounds: &Vec<(Vec3, Vec3)>) -> (r: bool)
        requires
            builder.wf(),
        ensures
            r <==> builder@.order.len() == old(self).tris.len() && bounds.len()
                == builder@.nodes.len(),
            !r ==> *final(self) == *old(self),
            r ==> {
                &&& final(self).tris@ == Seq::new(
                    old(self).tris@.len(),
                    |i: int| old(self).tris@[builder@.order[i] as int],
                )
                &&& final(self).bvh == Some(tree_of(builder@.nodes, 0, bounds@))
                &&& final(self).bvh->0.built_over(0, final(self).tris@.len() as int, 0)
                &&& final(self).verts == old(self).verts
                &&& final(self).normals == old(self).normals
                &&& final(self).vert_cols == old(self).vert_cols
                &&& final(self).vert_uv == old(self).vert_uv
            },
            r && old(self).wf() ==> final(self).wf(),
    {
        let ghost before = *self;
        let n = self.tris.len();
        if builder.order().len() != n || bounds.len() != builder.node_count() {
            return false;
        }
        let order = builder.order();
        proof {
            lemma_perm_bounds(builder@.order, builder@.order.len());
        }
        let mut tris: Vec<[usize; 3]> = Vec::new();
        let mut i: usize = 0;
        while i < n
            invariant
                i <= n == self.tris.len() == order.len(),
                order@ == builder@.order,
                forall|j: int| 0 <= j < order@.len() ==> #[trigger] order@[j] < n,
                tris@ == Seq::new(i as nat, |j: int| self.tris@[order@[j] as int]),
            decreases n - i,
        {
            tris.push(self.tris[order[i]]);
            assert(tris@ =~= Seq::new((i + 1) as nat, |j: int| self.tris@[order@[j] as int]));
            i = i + 1;
        }
        let tree = match builder.tree(bounds) {
            Some(t) => t,
            None => {
                return false;
            },
        };
        let ghost old_tris = self.tris@;
        self.tris = tris;
        self.bvh = Some(tree);
        proof {
            if before.wf() {
                assert forall|t: int, c: int|
                    0 <= t < self.tris@.len() && 0 <= c < 3 implies (#[trigger] self.tris@[t][c])
                    < self.verts@.len() by {
                    assert(self.tris@[t] == old_tris[order@[t] as int]);
                    assert(before.tris@[order@[t] as int][c] < before.verts@.len());
                }
            }
        }
        true
    }
}

impl Bvh {
    /// The end of the range of a hierarchy that is what `build` promises
    /// over a range starting at `begin`, placed at `depth`; `None` when it
    /// is not.
    fn check(&self, begin: usize, depth: usize) -> (r: Option<usize>)
        requires
            depth <= MAX_DEPTH,
        ensures
            match r {
                Some(e) => e == self.last() && self.built_over(begin as int, e as int, depth as int),
                None => !self.built_over(begin as int, self.last(), depth as int),
            },
        decreases self,
    {
        match &self.content {
            BvhContent::Leaf(l) => {
                if l.begin == begin && l.begin < l.end {
                    Some(l.end)
                } else {
                    None
                }
            },
            BvhContent::Node(p) => {
                if depth >= MAX_DEPTH {
                    return None;
                }
                let mid = match p.0.check(begin, depth + 1) {
                    Some(mid) => mid,
                    None => {
                        return None;
                    },
                };
                let end = match p.1.check(mid, depth + 1) {
                    Some(end) => end,
                    None => {
                        return None;
                    },
                };
                if end - begin > 2 * MIN_TRI {
                    Some(end)
                } else {
                    None
                }
            },
        }
    }
}

impl Mesh {
    /// Whether the mesh is well formed.
    pub fn is_wf(&self) -> (r: bool)
        ensures
            r == self.wf(),
    {
        let n = self.verts.len();
        let mut t: usize = 0;
        while t < self.tris.len()
            invariant
                t <= self.tris.len(),
                n == self.verts@.len(),
                forall|t2: int, c: int|
                    0 <= t2 < t && 0 <= c < 3 ==> (#[trigger] self.tris@[t2][c]) < n,
            decreases self.tris.len() - t,
        {
            let tri = self.tris[t];
            if tri[0] >= n || tri[1] >= n || tri[2] >= n {
                assert(!(self.tris@[t as int][0] < n && self.tris@[t as int][1] < n
                    && self.tris@[t as int][2] < n));
                return false;
            }
            proof {
                assert forall|t2: int, c: int|
                    0 <= t2 < t + 1 && 0 <= c < 3 implies (#[trigger] self.tris@[t2][c]) < n by {
                    if t2 == t {
                        assert(c == 0 || c == 1 || c == 2);
                    }
                }
            }
            t = t + 1;
        }
        let channels_ok = match &self.normals {
            Some(v) => v.len() == n,
            None => true,
        } && match &self.vert_cols {
            Some(v) => v.len() == n,
            None => true,
        } && match &self.vert_uv {
            Some(v) => v.len() == n,
            None => true,
        };
        if !channels_ok {
            return false;
        }
        match &self.bvh {
            Some(b) => match b.check(0, 0) {
                Some(e) => e == self.tris.len(),
                None => false,
            },
            None => true,
        }
    }
}

/// One corner of an imported polygon: indices into the model's position,
/// texture-coordinate and normal arrays.
#[derive(Debug, Clone, Copy, PartialEq, Eq, Structural)]
pub struct Corner {
    pub pos: usize,
    pub uv: Option<usize>,
    pub normal: Option<usize>,
}

/// Why a group of polygons cannot become a mesh.
#[derive(Debug, Clone, Copy, PartialEq, Eq, Structural)]
pub enum MeshError {
    /// A corner names a position, normal or texture coordinate that the
    /// model lacks, or lacks a normal or texture coordinate where another
    /// corner of the group has one.
    InvalidCorner,
}

/// The corners of the polygons that are triangles, in order; other polygons
/// are skipped.
pub open spec fn triangle_corners(polys: Seq<Vec<Corner>>) -> Seq<Corner>
    decreases polys.len(),
{
    if polys.len() == 0 {
        seq![]
    } else {
        let rest = triangle_corners(polys.drop_last());
        if polys.last()@.len() == 3 {
            rest + polys.last()@
        } else {
            rest
        }
    }
}

/// The distinct corners of `cs`, in the order of their first occurrence.
/// Two corners are the same when all three of their indices are.
pub open spec fn distinct_corners(cs: Seq<Corner>) -> Seq<Corner>
    decreases cs.len(),
{
    if cs.len() == 0 {
        seq![]
    } else {
        let d = distinct_corners(cs.drop_last());
        if d.contains(cs.last()) {
            d
        } else {
            d.push(cs.last())
        }
    }
}

/// Some corner of `cs` has a normal.
pub open spec fn uses_normals(cs: Seq<Corner>) -> bool {
    exists|k: int| 0 <= k < cs.len() && (#[trigger] cs[k]).normal is Some
}

/// Some corner of `cs` has a texture coordinate.
pub open spec fn uses_uvs(cs: Seq<Corner>) -> bool {
    exists|k: int| 0 <= k < cs.len() && (#[trigger] cs[k]).uv is Some
}

/// The corner names entries that exist, and has a normal (a texture
/// coordinate) wherever any corner of the group has one.
pub open spec fn corner_valid(
    c: Corner,
    cs: Seq<Corner>,
    n_pos: nat,
    n_normals: nat,
    n_uvs: nat,
) -> bool {
    &&& c.pos < n_pos
    &&& c.normal matches Some(i) ==> i < n_normals
    &&& c.uv matches Some(i) ==> i < n_uvs
    &&& uses_normals(cs) ==> c.normal is Some
    &&& uses_uvs(cs) ==> c.uv is Some
}

/// Every corner of `cs` is valid.
pub open spec fn corners_valid(cs: Seq<Corner>, n_pos: nat, n_normals: nat, n_uvs: nat) -> bool {
    forall|k: int| 0 <= k < cs.len() ==> corner_valid(#[trigger] cs[k], cs, n_pos, n_normals, n_uvs)
}

impl Mesh {
    /// The mesh that the triangles among `polys` give over the model's
    /// `positions`, `normals` and `uvs`: one vertex per distinct corner, in
    /// order of first use, and no hierarchy yet.
    pub open spec fn imported_from(
        self,
        polys: Seq<Vec<Corner>>,
        positions: Seq<Vec3>,
        normals: Seq<Vec3>,
        uvs: Seq<Vec2>,
    ) -> bool {
        let cs = triangle_corners(polys);
        let u = distinct_corners(cs);
        &&& self.bvh is None
        &&& self.vert_cols is None
        &&& 3 * self.tris@.len() == cs.len()
        &&& forall|t: int, c: int|
            0 <= t < self.tris@.len() && 0 <= c < 3 ==> {
                &&& (#[trigger] self.tris@[t][c]) < u.len()
                &&& u[self.tris@[t][c] as int] == cs[3 * t + c]
            }
        &&& self.verts@.len() == u.len()
        &&& forall|i: int| 0 <= i < u.len() ==> #[trigger] self.verts@[i] == positions[u[i].pos as int]
        &&& (self.normals is Some <==> uses_normals(cs))
        &&& self.normals matches Some(ns) ==> {
            &&& ns@.len() == u.len()
            &&& forall|i: int| 0 <= i < u.len() ==> #[trigger] ns@[i] == normals[u[i].normal->0 as int]
        }
        &&& (self.vert_uv is Some <==> uses_uvs(cs))
        &&& self.vert_uv matches Some(ts) ==> {
            &&& ts@.len() == u.len()
            &&& forall|i: int| 0 <= i < u.len() ==> #[trigger] ts@[i] == uvs[u[i].uv->0 as int]
        }
    }
}

/// An entry of a position's bucket: the texture coordinate and normal of a
/// distinct corner at that position, and the corner's vertex index.
type BucketEntry = (Option<usize>, Option<usize>, usize);

/// `buckets[p]` lists exactly the distinct corners of `u` at position `p`.
pub open spec fn buckets_index(buckets: Seq<Vec<BucketEntry>>, u: Seq<Corner>) -> bool {
    &&& forall|p: int, j: int|
        0 <= p < buckets.len() && 0 <= j < buckets[p]@.len() ==> {
            let e = #[trigger] buckets[p]@[j];
            &&& e.2 < u.len()
            &&& u[e.2 as int] == Corner { pos: p as usize, uv: e.0, normal: e.1 }
        }
    &&& forall|k: int|
        0 <= k < u.len() ==> {
            &&& (#[trigger] u[k]).pos < buckets.len()
            &&& exists|j: int|
                0 <= j < buckets[u[k].pos as int]@.len() && #[trigger] buckets[u[k].pos as int]@[j]
                    == (u[k].uv, u[k].normal, k as usize)
        }
}

/// The triangle corners of `polys`, in order.
fn collect_triangle_corners(polys: &Vec<Vec<Corner>>) -> (cs: Vec<Corner>)
    ensures
        cs@ == triangle_corners(polys@),
        cs@.len() % 3 == 0,
{
    let mut cs: Vec<Corner> = Vec::new();
    let mut i: usize = 0;
    while i < polys.len()
        invariant
            i <= polys.len(),
            cs@ == triangle_corners(polys@.take(i as int)),
            cs@.len() % 3 == 0,
        decreases polys.len() - i,
    {
        assert(polys@.take(i as int + 1).drop_last() == polys@.take(i as int));
        let poly = &polys[i];
        if poly.len() == 3 {
            let mut j: usize = 0;
            let ghost before = cs@;
            while j < 3
                invariant
                    j <= 3 == poly@.len(),
                    cs@ == before + poly@.take(j as int),
                decreases 3 - j,
            {
                cs.push(poly[j]);
                assert(poly@.take(j as int + 1) == poly@.take(j as int).push(poly@[j as int]));
                j = j + 1;
            }
            assert(poly@.take(3) == poly@);
        }
        i = i + 1;
    }
    assert(polys@.take(polys.len() as int) == polys@);
    cs
}

/// Whether every corner is valid, and whether some corner has a normal, and
/// some a texture coordinate.
fn check_corners(cs: &Vec<Corner>, n_pos: usize, n_normals: usize, n_uvs: usize) -> (r: (
    bool,
    bool,
    bool,
))
    ensures
        r.0 == corners_valid(cs@, n_pos as nat, n_normals as nat, n_uvs as nat),
        r.1 == uses_normals(cs@),
        r.2 == uses_uvs(cs@),
{
    let mut use_norm = false;
    let mut use_uv = false;
    let mut i: usize = 0;
    while i < cs.len()
        invariant
            i <= cs.len(),
            use_norm <==> exists|k: int| 0 <= k < i && (#[trigger] cs@[k]).normal is Some,
            use_uv <==> exists|k: int| 0 <= k < i && (#[trigger] cs@[k]).uv is Some,
        decreases cs.len() - i,
    {
        if cs[i].normal.is_some() {
            use_norm = true;
        }
        if cs[i].uv.is_some() {
            use_uv = true;
        }
        i = i + 1;
    }
    let mut i: usize = 0;
    while i < cs.len()
        invariant
            i <= cs.len(),
            use_norm == uses_normals(cs@),
            use_uv == uses_uvs(cs@),
            forall|k: int|
                0 <= k < i ==> corner_valid(
                    #[trigger] cs@[k],
                    cs@,
                    n_pos as nat,
                    n_normals as nat,
                    n_uvs as nat,
                ),
        decreases cs.len() - i,
    {
        let c = cs[i];
        let ok = c.pos < n_pos && match c.normal {
            Some(k) => k < n_normals,
            None => !use_norm,
        } && match c.uv {
            Some(k) => k < n_uvs,
            None => !use_uv,
        };
        if !ok {
            assert(!corner_valid(cs@[i as int], cs@, n_pos as nat, n_normals as nat, n_uvs as nat));
            return (false, use_norm, use_uv);
        }
        i = i + 1;
    }
    (true, use_norm, use_uv)
}

/// The vertex index of `c` among the distinct corners `unique`, which gains
/// `c` at its end if it is new.
fn find_or_add(buckets: &mut Vec<Vec<BucketEntry>>, unique: &mut Vec<Corner>, c: Corner) -> (k:
    usize)
    requires
        c.pos < old(buckets).len(),
        buckets_index(old(buckets)@, old(unique)@),
    ensures
        buckets_index(final(buckets)@, final(unique)@),
        final(buckets).len() == old(buckets).len(),
        final(unique)@ == if old(unique)@.contains(c) {
            old(unique)@
        } else {
            old(unique)@.push(c)
        },
        k < final(unique).len(),
        final(unique)@[k as int] == c,
{
    let p = c.pos;
    let n = buckets[p].len();
    let mut j: usize = 0;
    while j < n
        invariant
            j <= n == buckets@[p as int]@.len(),
            buckets_index(buckets@, unique@),
            c.pos == p < buckets.len(),
            forall|j2: int|
                0 <= j2 < j ==> {
                    let e = #[trigger] buckets@[p as int]@[j2];
                    e.0 != c.uv || e.1 != c.normal
                },
        decreases n - j,
    {
        let e = buckets[p][j];
        if e.0 == c.uv && e.1 == c.normal {
            assert(buckets@[p as int]@[j as int] == e);
            return e.2;
        }
        j = j + 1;
    }
    proof {
        if unique@.contains(c) {
            let k = choose|k: int| 0 <= k < unique@.len() && unique@[k] == c;
            assert(unique@[k] == c);
            let j2 = choose|j2: int|
                0 <= j2 < buckets@[unique@[k].pos as int]@.len() && #[trigger] buckets@[unique@[
                    k
                ].pos as int]@[j2] == (unique@[k].uv, unique@[k].normal, k as usize);
            assert(buckets@[p as int]@[j2] == (c.uv, c.normal, k as usize));
        }
    }
    let k = unique.len();
    unique.push(c);
    let ghost old_buckets = buckets@;
    buckets[p].push((c.uv, c.normal, k));
    proof {
        assert forall|q: int| 0 <= q < buckets@.len() && q != p implies buckets@[q] == old_buckets[q] by {}
        assert forall|i: int| 0 <= i < old_buckets[p as int]@.len() implies buckets@[p as int]@[i]
            == old_buckets[p as int]@[i] by {}
        assert(buckets@[p as int]@[k as int - k as int + n as int] == (c.uv, c.normal, k));
        assert forall|i: int| 0 <= i < unique@.len() implies {
            &&& (#[trigger] unique@[i]).pos < buckets@.len()
            &&& exists|j: int|
                0 <= j < buckets@[unique@[i].pos as int]@.len() && #[trigger] buckets@[unique@[
                    i
                ].pos as int]@[j] == (unique@[i].uv, unique@[i].normal, i as usize)
        } by {
            if i == k {
                assert(buckets@[p as int]@[n as int] == (c.uv, c.normal, k));
            } else {
                let q = unique@[i].pos as int;
                let j = choose|j: int|
                    0 <= j < old_buckets[q]@.len() && #[trigger] old_buckets[q]@[j] == (
                        unique@[i].uv,
                        unique@[i].normal,
                        i as usize,
                    );
                assert(buckets@[q]@[j] == old_buckets[q]@[j]);
            }
        }
    }
    k
}

impl Mesh {
    /// Builds a mesh from the triangles among `polys` over the model's
    /// `positions`, `normals` and `uvs`; polygons of another size are
    /// skipped. Corners that agree in all three indices share one vertex,
    /// numbered in order of first use. Normals (texture coordinates) are kept
    /// when some corner has one.
    pub fn from_corners(
        polys: &Vec<Vec<Corner>>,
        positions: &Vec<Vec3>,
        normals: &Vec<Vec3>,
        uvs: &Vec<Vec2>,
    ) -> (r: Result<Mesh, MeshError>)
        ensures
            r is Ok <==> corners_valid(
                triangle_corners(polys@),
                positions@.len(),
                normals@.len(),
                uvs@.len(),
            ),
            r matches Ok(m) ==> m.wf() && m.imported_from(polys@, positions@, normals@, uvs@),
    {
        let cs = collect_triangle_corners(polys);
        let (valid, use_norm, use_uv) = check_corners(
            &cs,
            positions.len(),
            normals.len(),
            uvs.len(),
        );
        if !valid {
            return Err(MeshError::InvalidCorner);
        }
        let ghost n_pos = positions@.len();
        let ghost n_normals = normals@.len();
        let ghost n_uvs = uvs@.len();
        // One bucket per position, listing the distinct corners found there.
        let mut buckets: Vec<Vec<BucketEntry>> = Vec::new();
        let mut i: usize = 0;
        while i < positions.len()
            invariant
                i <= positions.len(),
                buckets@.len() == i,
                forall|q: int| 0 <= q < i ==> (#[trigger] buckets@[q])@.len() == 0,
            decreases positions.len() - i,
        {
            buckets.push(Vec::new());
            i = i + 1;
        }
        let mut unique: Vec<Corner> = Vec::new();
        let mut index: Vec<usize> = Vec::new();
        let mut j: usize = 0;
        while j < cs.len()
            invariant
                n_pos == positions@.len(),
                n_normals == normals@.len(),
                n_uvs == uvs@.len(),
                j <= cs.len(),
                corners_valid(cs@, n_pos, n_normals, n_uvs),
                buckets@.len() == n_pos,
                buckets_index(buckets@, unique@),
                unique@ == distinct_corners(cs@.take(j as int)),
                forall|k: int|
                    0 <= k < unique@.len() ==> corner_valid(
                        #[trigger] unique@[k],
                        cs@,
                        n_pos,
                        n_normals,
                        n_uvs,
                    ),
                index@.len() == j,
                forall|k: int|
                    0 <= k < j ==> (#[trigger] index@[k]) < unique@.len() && unique@[index@[k] as int]
                        == cs@[k],
            decreases cs.len() - j,
        {
            let c = cs[j];
            assert(corner_valid(cs@[j as int], cs@, n_pos, n_normals, n_uvs));
            assert(cs@.take(j as int + 1).drop_last() == cs@.take(j as int));
            let k = find_or_add(&mut buckets, &mut unique, c);
            index.push(k);
            j = j + 1;
        }
        assert(cs@.take(cs@.len() as int) == cs@);
        let ghost u = unique@;
        let mut tris: Vec<[usize; 3]> = Vec::new();
        let mut t: usize = 0;
        while t < cs.len() / 3
            invariant
                t <= cs.len() / 3,
                cs@.len() % 3 == 0,
                index@.len() == cs@.len(),
                forall|k: int|
                    0 <= k < cs@.len() ==> (#[trigger] index@[k]) < u.len() && u[index@[k] as int]
                        == cs@[k],
                tris@.len() == t,
                forall|t2: int, c: int|
                    0 <= t2 < t && 0 <= c < 3 ==> (#[trigger] tris@[t2][c]) == index@[3 * t2 + c],
            decreases cs.len() / 3 - t,
        {
            tris.push([index[3 * t], index[3 * t + 1], index[3 * t + 2]]);
            t = t + 1;
        }
        let mut verts: Vec<Vec3> = Vec::new();
        let mut i: usize = 0;
        while i < unique.len()
            invariant
                n_pos == positions@.len(),
                n_normals == normals@.len(),
                n_uvs == uvs@.len(),
                i <= unique.len(),
                unique@ == u,
                forall|k: int| 0 <= k < u.len() ==> corner_valid(#[trigger] u[k], cs@, n_pos, n_normals, n_uvs),
                verts@.len() == i,
                forall|k: int| 0 <= k < i ==> #[trigger] verts@[k] == positions@[u[k].pos as int],
            decreases unique.len() - i,
        {
            verts.push(positions[unique[i].pos]);
            i = i + 1;
        }
        let mesh_normals = if use_norm {
            let mut ns: Vec<Vec3> = Vec::new();
            let mut i: usize = 0;
            while i < unique.len()
                invariant
                    n_pos == positions@.len(),
                    n_normals == normals@.len(),
                    n_uvs == uvs@.len(),
                    i <= unique.len(),
                    unique@ == u,
                    uses_normals(cs@),
                    forall|k: int|
                        0 <= k < u.len() ==> corner_valid(#[trigger] u[k], cs@, n_pos, n_normals, n_uvs),
                    ns@.len() == i,
                    forall|k: int| 0 <= k < i ==> #[trigger] ns@[k] == normals@[u[k].normal->0 as int],
                decreases unique.len() - i,
            {
                assert(corner_valid(u[i as int], cs@, n_pos, n_normals, n_uvs));
                if let Some(n) = unique[i].normal {
                    ns.push(normals[n]);
                }
                i = i + 1;
            }
            Some(ns)
        } else {
            None
        };
        let mesh_uvs = if use_uv {
            let mut ts: Vec<Vec2> = Vec::new();
            let mut i: usize = 0;
            while i < unique.len()
                invariant
                    n_pos == positions@.len(),
                    n_normals == normals@.len(),
                    n_uvs == uvs@.len(),
                    i <= unique.len(),
                    unique@ == u,
                    uses_uvs(cs@),
                    forall|k: int|
                        0 <= k < u.len() ==> corner_valid(#[trigger] u[k], cs@, n_pos, n_normals, n_uvs),
                    ts@.len() == i,
                    forall|k: int| 0 <= k < i ==> #[trigger] ts@[k] == uvs@[u[k].uv->0 as int],
                decreases unique.len() - i,
            {
                assert(corner_valid(u[i as int], cs@, n_pos, n_normals, n_uvs));
                if let Some(n) = unique[i].uv {
                    ts.push(uvs[n]);
                }
                i = i + 1;
            }
            Some(ts)
        } else {
            None
        };
        Ok(
            Mesh {
                bvh: None,
                tris,
                verts,
                normals: mesh_normals,
                vert_cols: None,
                vert_uv: mesh_uvs,
            },
        )
    }
}

/// A node whose height fits below `depth` respects the depth bound.
proof fn lemma_height_bounds_depth(b: Bvh, depth: int)
    requires
        b.height() + depth <= MAX_DEPTH,
    ensures
        b.depth_bounded(depth),
    decreases b,
{
    if let BvhContent::Node(p) = b.content {
        lemma_height_bounds_depth(*p.0, depth + 1);
        lemma_height_bounds_depth(*p.1, depth + 1);
    }
}

/// The leaves of a mesh's hierarchy cover its triangles: every index from
/// 0 up to the triangle count, each exactly once. (`create_bvh` only
/// reorders the triangles, so none is dropped or duplicated either.)
pub proof fn lemma_leaves_cover_mesh(m: Mesh)
    requires
        m.wf(),
        m.bvh is Some,
    ensures
        m.bvh->0.leaf_indices() == Seq::new(m.tris@.len(), |i: int| i),
{
    let b = m.bvh->0;
    lemma_leaves_cover_range(b);
    assert(b.leaf_indices() =~= Seq::new(m.tris@.len(), |i: int| i));
}

/// In a hierarchy built from the root, no leaf lies deeper than
/// `MAX_DEPTH`, and every node at depth `MAX_DEPTH` or more is a leaf.
pub proof fn lemma_depth_bounded(b: Bvh, n: int)
    requires
        b.built_over(0, n, 0),
    ensures
        b.depth_bounded(0),
{
    lemma_height_bounds_depth(b, 0);
}

/// No split of a well-formed hierarchy leaves a child without triangles.
pub proof fn lemma_splits_nonempty(b: Bvh)
    requires
        b.wf(),
    ensures
        b.splits_nonempty(),
    decreases b,
{
    if let BvhContent::Node(p) = b.content {
        lemma_range_nonempty(*p.0);
        lemma_range_nonempty(*p.1);
        lemma_splits_nonempty(*p.0);
        lemma_splits_nonempty(*p.1);
    }
}

} // verus!
