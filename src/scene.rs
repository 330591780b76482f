//! The scene graph: nodes with a transform, children, a model and a
//! material.
use crate::geometry::{mat4_inverse, mat4_mul, mat4_point, mat4_product, mat4_vector};
use crate::mesh::Mesh;
use glam::{Mat4, Vec3};
use std::sync::Arc;
use vstd::prelude::*;

verus! {

/// Placement of a node: a matrix from local to parent space, and the matrix
/// back.
#[derive(Debug, Clone, Copy)]
pub struct Transform {
    matrix: Mat4,
    inv_matrix: Mat4,
}

impl View for Transform {
    /// The forward matrix and the inverse one.
    type V = (Mat4, Mat4);

    closed spec fn view(&self) -> (Mat4, Mat4) {
        (self.matrix, self.inv_matrix)
    }
}

/// The transform that applies `b` first and then `a`: the forward matrices
/// multiply as `a * b`, the inverse ones as `b⁻¹ * a⁻¹`.
pub open spec fn compose(a: (Mat4, Mat4), b: (Mat4, Mat4)) -> (Mat4, Mat4) {
    (mat4_product(a.0, b.0), mat4_product(b.1, a.1))
}

/// A ray: where it starts and where it heads.
#[derive(Debug, Clone, Copy)]
pub struct Ray {
    /// Position of the ray.
    pub pos: Vec3,
    /// Direction the ray is facing.
    pub normal: Vec3,
}

impl Transform {
    /// The transform given by `matrix` and its inverse.
    pub fn new(matrix: Mat4) -> (r: Transform)
        ensures
            r@ == (matrix, mat4_inverse(matrix)),
    {
        let inv_matrix = matrix.inverse();
        Transform { matrix, inv_matrix }
    }

    /// Applies `rhs` first, then `self`.
    pub fn mul(self, rhs: Transform) -> (r: Transform)
        ensures
            r@ == compose(self@, rhs@),
    {
        Transform {
            matrix: mat4_mul(&self.matrix, &rhs.matrix),
            inv_matrix: mat4_mul(&rhs.inv_matrix, &self.inv_matrix),
        }
    }

    pub fn matrix(&self) -> (r: &Mat4)
        ensures
            *r == self@.0,
    {
        &self.matrix
    }

    pub fn inv_matrix(&self) -> (r: &Mat4)
        ensures
            *r == self@.1,
    {
        &self.inv_matrix
    }

    /// Replaces the matrix, and the inverse with its inverse.
    pub fn set_matrix(&mut self, matrix: Mat4)
        ensures
            final(self)@ == (matrix, mat4_inverse(matrix)),
    {
        self.matrix = matrix;
        self.inv_matrix = matrix.inverse();
    }

    pub fn ray_world_to_local(&self, ray: Ray) -> (r: Ray)
        ensures
            r.pos == mat4_point(self@.1, ray.pos),
            r.normal == mat4_vector(self@.1, ray.normal),
    {
        Ray {
            pos: self.inv_matrix.transform_point3(ray.pos),
            normal: self.inv_matrix.transform_vector3(ray.normal),
        }
    }

    pub fn ray_local_to_world(&self, ray: Ray) -> (r: Ray)
        ensures
            r.pos == mat4_point(self@.0, ray.pos),
            r.normal == mat4_vector(self@.0, ray.normal),
    {
        Ray {
            pos: self.matrix.transform_point3(ray.pos),
            normal: self.matrix.transform_vector3(ray.normal),
        }
    }

    pub fn normal_world_to_local(&self, normal: Vec3) -> (r: Vec3)
        ensures
            r == mat4_vector(self@.1, normal),
    {
        self.inv_matrix.transform_vector3(normal)
    }

    pub fn normal_local_to_world(&self, normal: Vec3) -> (r: Vec3)
        ensures
            r == mat4_vector(self@.0, normal),
    {
        self.matrix.transform_vector3(normal)
    }

    pub fn local_to_world(&self, pos: Vec3) -> (r: Vec3)
        ensures
            r == mat4_point(self@.0, pos),
    {
        self.matrix.transform_point3(pos)
    }

    pub fn world_to_local(&self, pos: Vec3) -> (r: Vec3)
        ensures
            r == mat4_point(self@.1, pos),
    {
        self.inv_matrix.transform_point3(pos)
    }
}

impl From<Mat4> for Transform {
    /// The transform given by `matrix` and its inverse.
    fn from(matrix: Mat4) -> (r: Transform) {
        Transform::new(matrix)
    }
}

impl vstd::std_specs::convert::FromSpecImpl<Mat4> for Transform {
    open spec fn obeys_from_spec() -> bool {
        true
    }

    closed spec fn from_spec(matrix: Mat4) -> Transform {
        Transform { matrix, inv_matrix: mat4_inverse(matrix) }
    }
}

/// `Transform::from(m)` holds `m` and its inverse.
pub proof fn lemma_from_matrix(m: Mat4)
    ensures
        <Transform as vstd::std_specs::convert::FromSpec<Mat4>>::from_spec(m)@ == (
            m,
            mat4_inverse(m),
        ),
{
}

/// What a node shows.
#[derive(Debug, Clone)]
pub enum Model {
    /// Node has no model.
    Empty,
    /// Sphere with radius 1.
    Sphere,
    /// XY-plane square with radius 1.
    Plane,
    /// Mesh made out of triangles, shared between the nodes that show it.
    Mesh(Arc<Mesh>),
}

/// Relies on `Arc::ptr_eq`: two handles to one allocation see one value.
#[verifier::external_body]
pub(crate) fn same_allocation(a: &Arc<Mesh>, b: &Arc<Mesh>) -> (r: bool)
    ensures
        r ==> **a == **b,
{
    Arc::ptr_eq(a, b)
}

impl Model {
    /// Whether two models are the same: the same kind, and for meshes the
    /// same shared mesh, not merely an equal one.
    pub fn same_model(&self, other: &Model) -> (r: bool)
        ensures
            r ==> *self == *other,
            !(self is Mesh && other is Mesh) ==> (r <==> *self == *other),
    {
        match (self, other) {
            (Model::Mesh(a), Model::Mesh(b)) => same_allocation(a, b),
            (Model::Empty, Model::Empty) => true,
            (Model::Sphere, Model::Sphere) => true,
            (Model::Plane, Model::Plane) => true,
            _ => false,
        }
    }
}

/// A node of the scene graph.
#[derive(Debug)]
pub struct Node<M> {
    /// Node's position, rotation and scale, relative to its parent.
    pub transform: Transform,
    /// Child nodes.
    pub children: Vec<Node<M>>,
    /// Node's model.
    pub model: Model,
    /// Node's material.
    pub prop: M,
}

/// A node showing `meshes`, placed by `transform`: the mesh itself when
/// there is exactly one, else a node without a model with one child per
/// mesh, in order. Every node gets the default material.
pub fn node_from_meshes<M: Default>(meshes: Vec<Mesh>, transform: Transform) -> (r: Node<M>)
    ensures
        meshes@.len() == 1 ==> {
            &&& r.model is Mesh
            &&& *r.model->Mesh_0 == meshes@[0]
            &&& r.children@.len() == 0
        },
        meshes@.len() != 1 ==> {
            &&& r.model is Empty
            &&& r.children@.len() == meshes@.len()
            &&& forall|i: int|
                0 <= i < meshes@.len() ==> {
                    &&& (#[trigger] r.children@[i]).model is Mesh
                    &&& *r.children@[i].model->Mesh_0 == meshes@[i]
                    &&& r.children@[i].children@.len() == 0
                    &&& r.children@[i].transform@ == transform@
                }
        },
        r.transform@ == transform@,
{
    let ghost all = meshes@;
    let mut rest = meshes;
    if rest.len() == 1 {
        let m = rest.remove(0);
        return Node { transform, children: Vec::new(), model: Model::Mesh(Arc::new(m)), prop: M::default() };
    }
    let mut children: Vec<Node<M>> = Vec::new();
    while rest.len() > 0
        invariant
            children@.len() + rest@.len() == all.len(),
            rest@ == all.subrange(children@.len() as int, all.len() as int),
            forall|i: int|
                0 <= i < children@.len() ==> {
                    &&& (#[trigger] children@[i]).model is Mesh
                    &&& *children@[i].model->Mesh_0 == all[i]
                    &&& children@[i].children@.len() == 0
                    &&& children@[i].transform@ == transform@
                },
        decreases rest.len(),
    {
        let m = rest.remove(0);
        children.push(
            Node { transform, children: Vec::new(), model: Model::Mesh(Arc::new(m)), prop: M::default() },
        );
    }
    Node { transform, children, model: Model::Empty, prop: M::default() }
}

/// The transform of a node placed by `t` under a parent whose world
/// transform is `parent` (`None` at the root, where nothing is applied).
pub open spec fn placed(parent: Option<(Mat4, Mat4)>, t: (Mat4, Mat4)) -> (Mat4, Mat4) {
    match parent {
        Some(p) => compose(p, t),
        None => t,
    }
}

/// An object that the scene shows: a node with a model, its world
/// transform and its material.
pub struct Shown<M> {
    pub transform: (Mat4, Mat4),
    pub prop: M,
    pub model: Model,
}

/// The objects shown by `nodes` and their descendants, under a parent with
/// world transform `parent`: each node before its children, and its
/// children before its next sibling.
pub open spec fn shown<M>(nodes: Seq<Node<M>>, parent: Option<(Mat4, Mat4)>) -> Seq<Shown<M>>
    decreases nodes,
{
    if nodes.len() == 0 {
        seq![]
    } else {
        let n = nodes.last();
        let t = placed(parent, n.transform@);
        let own = if n.model is Empty {
            seq![]
        } else {
            seq![Shown { transform: t, prop: n.prop, model: n.model }]
        };
        shown(nodes.drop_last(), parent) + own + shown(n.children@, Some(t))
    }
}

/// Down a chain of three nodes `a`, `b`, `c`, the last object shown is
/// `c`'s, placed by the composition of the three transforms, the outermost
/// first: `a`'s applied last, `c`'s first.
pub proof fn lemma_chain_composes<M>(a: Node<M>, b: Node<M>, c: Node<M>)
    requires
        a.children@ == seq![b],
        b.children@ == seq![c],
        c.children@.len() == 0,
        !(c.model is Empty),
    ensures
        shown(seq![a], None).last() == (Shown {
            transform: compose(compose(a.transform@, b.transform@), c.transform@),
            prop: c.prop,
            model: c.model,
        }),
{
    let ta = a.transform@;
    let tb = compose(ta, b.transform@);
    let tc = compose(tb, c.transform@);
    assert(seq![a].drop_last() =~= Seq::<Node<M>>::empty());
    assert(seq![b].drop_last() =~= Seq::<Node<M>>::empty());
    assert(seq![c].drop_last() =~= Seq::<Node<M>>::empty());
    let sc = shown(seq![c], Some(tb));
    assert(shown(c.children@, Some(tc)) == Seq::<Shown<M>>::empty());
    assert(shown(Seq::<Node<M>>::empty(), Some(tb)) == Seq::<Shown<M>>::empty());
    assert(sc =~= seq![Shown { transform: tc, prop: c.prop, model: c.model }]);
    let sb = shown(seq![b], Some(ta));
    assert(sb.last() == sc.last());
    assert(shown(seq![a], None).last() == sb.last());
}

} // verus!
