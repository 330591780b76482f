use glam::{Mat4, Quat, Vec2, Vec3};
use raytrace_scene::builder::BvhBuilder;
use raytrace_scene::mesh::Mesh;
use raytrace_scene::scene::{Model, Node, Ray, Transform};
use raytrace_scene::shader_buffer::{
    flatten_scene, GpuMesh, GpuObjectType, SceneBuffers, ABSENT,
};
use std::sync::Arc;

fn node(transform: Mat4, model: Model, prop: u32, children: Vec<Node<u32>>) -> Node<u32> {
    Node {
        transform: Transform::new(transform),
        children,
        model,
        prop,
    }
}

fn strip(n: usize) -> Mesh {
    let mut verts = Vec::new();
    let mut tris = Vec::new();
    for i in 0..n {
        let x = i as f32;
        verts.push(Vec3::new(x, 0.0, 0.0));
        verts.push(Vec3::new(x + 0.5, 0.0, 0.0));
        verts.push(Vec3::new(x, 1.0, 0.0));
        tris.push([3 * i, 3 * i + 1, 3 * i + 2]);
    }
    Mesh {
        bvh: None,
        tris,
        verts,
        normals: None,
        vert_cols: None,
        vert_uv: None,
    }
}

/// Builds the hierarchy of `mesh` cutting every range into halves by
/// position, with boxes `(begin, end)` splatted.
fn halves(mesh: &mut Mesh) {
    let mut builder = BvhBuilder::new(mesh.tris.len()).unwrap();
    while let Some((begin, end)) = builder.next_range() {
        let cut_at = (begin + end) / 2;
        builder.step(Some((begin..end).map(|i| i >= cut_at).collect()));
    }
    let bounds: Vec<(Vec3, Vec3)> = (0..builder.node_count())
        .map(|k| {
            let (b, e) = builder.node_range(k).unwrap();
            (Vec3::splat(b as f32), Vec3::splat(e as f32))
        })
        .collect();
    assert!(mesh.create_bvh(&builder, &bounds));
}

fn close(a: Vec3, b: Vec3) -> bool {
    (a - b).length() < 1e-5
}

#[test]
fn empty_scene_pads_every_buffer() {
    let b = flatten_scene::<u32>(&vec![]).unwrap();
    assert_eq!(b.object_count, 0);
    assert_eq!(b.objects.len(), 1);
    assert_eq!(b.objects[0].model_type, 0);
    assert_eq!(b.objects[0].model_index, 0);
    assert_eq!(b.meshes.len(), 1);
    assert_eq!(b.meshes[0].num_tris, 0);
    assert_eq!(b.tris, vec![0]);
    assert_eq!(b.verts, vec![Vec3::ZERO]);
    assert_eq!(b.norms, vec![Vec3::ZERO]);
    assert_eq!(b.vcols, vec![Vec3::ZERO]);
    assert_eq!(b.uvs, vec![Vec2::ZERO]);
    assert_eq!(b.bvh.len(), 1);
    assert_eq!(b.bvh[0].children, 0);
    assert_eq!(b.bvh[0].tri_count, 0);
}

#[test]
fn nodes_without_models_give_no_objects() {
    let scene = vec![node(Mat4::IDENTITY, Model::Empty, 1, vec![node(Mat4::IDENTITY, Model::Empty, 2, vec![])])];
    let b = flatten_scene(&scene).unwrap();
    assert_eq!(b.object_count, 0);
    assert_eq!(b.objects.len(), 1);
}

#[test]
fn spheres_and_planes_in_depth_first_order() {
    let scene = vec![
        node(Mat4::IDENTITY, Model::Sphere, 1, vec![node(Mat4::IDENTITY, Model::Plane, 2, vec![])]),
        node(Mat4::IDENTITY, Model::Plane, 3, vec![]),
    ];
    let b = flatten_scene(&scene).unwrap();
    assert_eq!(b.object_count, 3);
    let props: Vec<u32> = b.objects.iter().map(|o| o.prop).collect();
    assert_eq!(props, vec![1, 2, 3]);
    let types: Vec<u32> = b.objects.iter().map(|o| o.model_type).collect();
    assert_eq!(types, vec![0, 1, 1]);
    assert!(b.objects.iter().all(|o| o.model_index == 0));
    // No mesh: the mesh-side buffers hold their placeholder.
    assert_eq!(b.meshes.len(), 1);
    assert_eq!(b.tris, vec![0]);
}

#[test]
fn object_type_codes() {
    assert_eq!(GpuObjectType::Sphere.code(), 0);
    assert_eq!(GpuObjectType::Plane.code(), 1);
    assert_eq!(GpuObjectType::Mesh.code(), 2);
    assert!(GpuObjectType::Sphere < GpuObjectType::Mesh);
}

#[test]
fn chain_of_transforms_composes_parent_first() {
    let a = Mat4::from_translation(Vec3::new(1.0, 0.0, 0.0));
    let b = Mat4::from_rotation_z(std::f32::consts::FRAC_PI_2);
    let c = node(Mat4::IDENTITY, Model::Sphere, 7, vec![]);
    let scene = vec![node(a, Model::Empty, 0, vec![node(b, Model::Empty, 0, vec![c])])];
    let out = flatten_scene(&scene).unwrap();
    assert_eq!(out.object_count, 1);
    let t = out.objects[0].transform;
    assert!(close(t.local_to_world(Vec3::ZERO), Vec3::new(1.0, 0.0, 0.0)));
    assert!(close(t.normal_local_to_world(Vec3::X), Vec3::Y));
    assert!(close(t.world_to_local(Vec3::new(1.0, 0.0, 0.0)), Vec3::ZERO));
    assert!(close(t.normal_world_to_local(Vec3::Y), Vec3::X));
}

#[test]
fn transform_product_applies_right_operand_first() {
    let a = Transform::new(Mat4::from_translation(Vec3::new(0.0, 2.0, 0.0)));
    let b = Transform::new(Mat4::from_scale(Vec3::splat(3.0)));
    let ab = a.mul(b);
    assert!(close(ab.local_to_world(Vec3::ONE), Vec3::new(3.0, 5.0, 3.0)));
    assert!(close(ab.world_to_local(Vec3::new(3.0, 5.0, 3.0)), Vec3::ONE));
    assert_eq!(*ab.matrix(), *a.matrix() * *b.matrix());
    assert_eq!(*ab.inv_matrix(), *b.inv_matrix() * *a.inv_matrix());
}

#[test]
fn transform_keeps_its_inverse() {
    let m = Mat4::from_scale_rotation_translation(Vec3::splat(2.0), Quat::IDENTITY, Vec3::new(1.0, 2.0, 3.0));
    let mut t = Transform::new(Mat4::IDENTITY);
    t.set_matrix(m);
    assert_eq!(*t.matrix(), m);
    assert_eq!(*t.inv_matrix(), m.inverse());
    let ray = Ray { pos: Vec3::ZERO, normal: Vec3::X };
    let world = t.ray_local_to_world(ray);
    assert!(close(world.pos, Vec3::new(1.0, 2.0, 3.0)));
    assert!(close(world.normal, Vec3::new(2.0, 0.0, 0.0)));
    let back = t.ray_world_to_local(world);
    assert!(close(back.pos, Vec3::ZERO));
    assert!(close(back.normal, Vec3::X));
}

#[test]
fn shared_mesh_is_flattened_once() {
    let mesh = Arc::new(strip(2));
    let scene = vec![
        node(Mat4::IDENTITY, Model::Mesh(mesh.clone()), 1, vec![]),
        node(Mat4::IDENTITY, Model::Sphere, 2, vec![]),
        node(Mat4::IDENTITY, Model::Mesh(mesh.clone()), 3, vec![]),
    ];
    let b = flatten_scene(&scene).unwrap();
    assert_eq!(b.object_count, 3);
    assert_eq!(b.meshes.len(), 1);
    assert_eq!(b.objects[0].model_index, 0);
    assert_eq!(b.objects[2].model_index, 0);
    assert_eq!(b.objects[0].model_type, 2);
    assert_eq!(b.tris, vec![0, 1, 2, 3, 4, 5]);
    assert_eq!(b.verts.len(), 6);
}

#[test]
fn equal_but_distinct_meshes_are_flattened_apart() {
    let scene = vec![
        node(Mat4::IDENTITY, Model::Mesh(Arc::new(strip(1))), 1, vec![]),
        node(Mat4::IDENTITY, Model::Mesh(Arc::new(strip(1))), 2, vec![]),
    ];
    let b = flatten_scene(&scene).unwrap();
    assert_eq!(b.meshes.len(), 2);
    assert_eq!(b.objects[0].model_index, 0);
    assert_eq!(b.objects[1].model_index, 1);
    // The second mesh's corners point past the first mesh's vertices.
    assert_eq!(b.tris, vec![0, 1, 2, 3, 4, 5]);
    assert_eq!(b.meshes[1].tri_offset, 1);
    assert_eq!(b.meshes[1].vert_offset, 3);
}

#[test]
fn mesh_offsets_and_absent_channels() {
    let mut first = strip(1);
    first.normals = Some(vec![Vec3::Z; 3]);
    let mut second = strip(2);
    second.vert_uv = Some(vec![Vec2::ONE; 6]);
    second.vert_cols = Some(vec![Vec3::X; 6]);
    let scene = vec![
        node(Mat4::IDENTITY, Model::Mesh(Arc::new(first)), 1, vec![]),
        node(Mat4::IDENTITY, Model::Mesh(Arc::new(second)), 2, vec![]),
    ];
    let b = flatten_scene(&scene).unwrap();
    assert_eq!(
        b.meshes[0],
        GpuMesh {
            num_tris: 1,
            bvh_offset: ABSENT,
            tri_offset: 0,
            vert_offset: 0,
            norm_offset: 0,
            vcol_offset: ABSENT,
            uv_offset: ABSENT,
        }
    );
    assert_eq!(
        b.meshes[1],
        GpuMesh {
            num_tris: 2,
            bvh_offset: ABSENT,
            tri_offset: 1,
            vert_offset: 3,
            norm_offset: ABSENT,
            vcol_offset: 0,
            uv_offset: 0,
        }
    );
    assert_eq!(b.tris, vec![0, 1, 2, 3, 4, 5, 6, 7, 8]);
    assert_eq!(b.norms, vec![Vec3::Z; 3]);
    assert_eq!(b.vcols, vec![Vec3::X; 6]);
    assert_eq!(b.uvs, vec![Vec2::ONE; 6]);
    // No hierarchy anywhere: the hierarchy buffer holds its placeholder.
    assert_eq!(b.bvh.len(), 1);
}

#[test]
fn hierarchy_is_flattened_with_global_ranges() {
    let first = strip(1);
    let mut second = strip(8);
    halves(&mut second);
    let scene = vec![
        node(Mat4::IDENTITY, Model::Mesh(Arc::new(first)), 1, vec![]),
        node(Mat4::IDENTITY, Model::Mesh(Arc::new(second)), 2, vec![]),
    ];
    let b = flatten_scene(&scene).unwrap();
    let g = b.meshes[1];
    assert_eq!(g.tri_offset, 1);
    assert_eq!(g.bvh_offset, 0);
    // Root over 0..8, split into 0..4 and 4..8, both leaves.
    let root = b.bvh[0];
    assert_eq!(root.tri_count, 0);
    assert_eq!(root.children, 1);
    assert_eq!(root.min, Vec3::splat(0.0));
    assert_eq!(root.max, Vec3::splat(8.0));
    let left = b.bvh[1];
    let right = b.bvh[2];
    assert_eq!((left.children, left.tri_count), (1, 4));
    assert_eq!((right.children, right.tri_count), (5, 4));
    assert_eq!(left.max, Vec3::splat(4.0));
    assert_eq!(right.min, Vec3::splat(4.0));
    assert_eq!(b.bvh.len(), 3);
    assert_eq!(b.meshes[0].bvh_offset, ABSENT);
}

#[test]
fn deeper_hierarchy_puts_children_side_by_side() {
    let mut mesh = strip(16);
    halves(&mut mesh);
    let scene = vec![node(Mat4::IDENTITY, Model::Mesh(Arc::new(mesh)), 1, vec![])];
    let b = flatten_scene(&scene).unwrap();
    // 16 -> 8 + 8 -> 4 + 4 each: seven nodes.
    assert_eq!(b.bvh.len(), 7);
    let mut leaves = Vec::new();
    let mut stack = vec![0usize];
    while let Some(i) = stack.pop() {
        let e = b.bvh[i];
        if e.tri_count == 0 {
            stack.push(e.children as usize + 1);
            stack.push(e.children as usize);
        } else {
            leaves.push((e.children, e.tri_count));
        }
    }
    assert_eq!(leaves, vec![(0, 4), (4, 4), (8, 4), (12, 4)]);
}

fn same_buffers(a: &SceneBuffers<u32>, b: &SceneBuffers<u32>) -> bool {
    a.object_count == b.object_count
        && a.objects.len() == b.objects.len()
        && a.objects.iter().zip(b.objects.iter()).all(|(x, y)| {
            x.prop == y.prop
                && x.model_type == y.model_type
                && x.model_index == y.model_index
                && x.transform.matrix() == y.transform.matrix()
                && x.transform.inv_matrix() == y.transform.inv_matrix()
        })
        && a.meshes == b.meshes
        && a.tris == b.tris
        && a.verts == b.verts
        && a.norms == b.norms
        && a.vcols == b.vcols
        && a.uvs == b.uvs
        && a.bvh.len() == b.bvh.len()
        && a.bvh.iter().zip(b.bvh.iter()).all(|(x, y)| {
            x.min == y.min && x.max == y.max && x.children == y.children && x.tri_count == y.tri_count
        })
}

#[test]
fn flattening_twice_gives_the_same_buffers() {
    let mut mesh = strip(12);
    halves(&mut mesh);
    let mesh = Arc::new(mesh);
    let scene = vec![
        node(Mat4::from_rotation_x(0.3), Model::Mesh(mesh.clone()), 1, vec![
            node(Mat4::from_translation(Vec3::X), Model::Sphere, 2, vec![]),
            node(Mat4::IDENTITY, Model::Mesh(mesh.clone()), 3, vec![]),
        ]),
        node(Mat4::IDENTITY, Model::Plane, 4, vec![]),
    ];
    let first = flatten_scene(&scene).unwrap();
    let second = flatten_scene(&scene).unwrap();
    assert!(same_buffers(&first, &second));
    assert_eq!(first.object_count, 4);
}

#[test]
fn malformed_mesh_is_reported() {
    let mut bad = strip(2);
    bad.tris[1] = [0, 1, 6];
    let scene = vec![
        node(Mat4::IDENTITY, Model::Sphere, 1, vec![]),
        node(Mat4::IDENTITY, Model::Mesh(Arc::new(bad)), 2, vec![]),
    ];
    let r = flatten_scene(&scene);
    assert_eq!(r.err(), Some(raytrace_scene::shader_buffer::FlattenError::InvalidMesh));
}

#[test]
fn mesh_deep_in_the_graph_is_placed_by_all_ancestors() {
    let mesh = Arc::new(strip(1));
    let scene = vec![node(
        Mat4::from_translation(Vec3::new(0.0, 0.0, 5.0)),
        Model::Plane,
        1,
        vec![node(
            Mat4::from_scale(Vec3::splat(2.0)),
            Model::Mesh(mesh),
            2,
            vec![],
        )],
    )];
    let b = flatten_scene(&scene).unwrap();
    assert_eq!(b.object_count, 2);
    assert_eq!(b.objects[1].model_type, 2);
    let t = b.objects[1].transform;
    assert!(close(t.local_to_world(Vec3::ONE), Vec3::new(2.0, 2.0, 7.0)));
}

#[test]
fn models_compare_by_shared_mesh() {
    let mesh = Arc::new(strip(1));
    let a = Model::Mesh(mesh.clone());
    let b = Model::Mesh(mesh.clone());
    let c = Model::Mesh(Arc::new(strip(1)));
    assert!(a.same_model(&b));
    assert!(!a.same_model(&c));
    assert!(Model::Sphere.same_model(&Model::Sphere));
    assert!(!Model::Sphere.same_model(&Model::Plane));
    assert!(!Model::Empty.same_model(&a));
    assert!(Model::Empty.same_model(&Model::Empty));
}

#[test]
fn transform_from_matrix_holds_its_inverse() {
    let m = Mat4::from_translation(Vec3::new(4.0, 0.0, 0.0));
    let t = Transform::from(m);
    assert_eq!(*t.matrix(), m);
    assert_eq!(*t.inv_matrix(), m.inverse());
    assert!(close(t.world_to_local(Vec3::new(4.0, 0.0, 0.0)), Vec3::ZERO));
}

#[test]
fn one_mesh_becomes_the_node_itself() {
    let n: Node<u32> = raytrace_scene::scene::node_from_meshes(vec![strip(2)], Transform::new(Mat4::IDENTITY));
    assert!(n.children.is_empty());
    match &n.model {
        Model::Mesh(m) => assert_eq!(m.tris.len(), 2),
        _ => panic!("expected a mesh"),
    }
    assert_eq!(n.prop, 0);
}

#[test]
fn several_meshes_become_children_in_order() {
    let n: Node<u32> = raytrace_scene::scene::node_from_meshes(
        vec![strip(1), strip(2), strip(3)],
        Transform::new(Mat4::IDENTITY),
    );
    assert!(matches!(n.model, Model::Empty));
    let sizes: Vec<usize> = n
        .children
        .iter()
        .map(|c| match &c.model {
            Model::Mesh(m) => m.tris.len(),
            _ => 0,
        })
        .collect();
    assert_eq!(sizes, vec![1, 2, 3]);
    let none: Node<u32> = raytrace_scene::scene::node_from_meshes(vec![], Transform::new(Mat4::IDENTITY));
    assert!(matches!(none.model, Model::Empty));
    assert!(none.children.is_empty());
}
