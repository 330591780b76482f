use glam::{Vec2, Vec3};
use raytrace_scene::mesh::{Corner, Mesh, MeshError};

fn corner(pos: usize, uv: Option<usize>, normal: Option<usize>) -> Corner {
    Corner { pos, uv, normal }
}

fn square_positions() -> Vec<Vec3> {
    vec![
        Vec3::new(0.0, 0.0, 0.0),
        Vec3::new(1.0, 0.0, 0.0),
        Vec3::new(1.0, 1.0, 0.0),
        Vec3::new(0.0, 1.0, 0.0),
    ]
}

#[test]
fn shared_corners_become_one_vertex() {
    let polys = vec![
        vec![corner(0, None, None), corner(1, None, None), corner(2, None, None)],
        vec![corner(0, None, None), corner(2, None, None), corner(3, None, None)],
    ];
    let positions = square_positions();
    let mesh = Mesh::from_corners(&polys, &positions, &vec![], &vec![]).unwrap();
    assert_eq!(mesh.tris, vec![[0, 1, 2], [0, 2, 3]]);
    assert_eq!(mesh.verts, positions);
    assert!(mesh.normals.is_none());
    assert!(mesh.vert_uv.is_none());
    assert!(mesh.vert_cols.is_none());
    assert!(mesh.bvh.is_none());
}

#[test]
fn vertices_are_numbered_in_order_of_first_use() {
    let polys = vec![
        vec![corner(3, None, None), corner(1, None, None), corner(2, None, None)],
        vec![corner(2, None, None), corner(0, None, None), corner(3, None, None)],
    ];
    let positions = square_positions();
    let mesh = Mesh::from_corners(&polys, &positions, &vec![], &vec![]).unwrap();
    assert_eq!(mesh.tris, vec![[0, 1, 2], [2, 3, 0]]);
    assert_eq!(
        mesh.verts,
        vec![positions[3], positions[1], positions[2], positions[0]]
    );
}

#[test]
fn corners_differing_in_normal_are_distinct() {
    let polys = vec![
        vec![corner(0, None, Some(0)), corner(1, None, Some(0)), corner(2, None, Some(0))],
        vec![corner(0, None, Some(1)), corner(2, None, Some(1)), corner(3, None, Some(1))],
    ];
    let normals = vec![Vec3::Z, Vec3::NEG_Z];
    let mesh = Mesh::from_corners(&polys, &square_positions(), &normals, &vec![]).unwrap();
    assert_eq!(mesh.tris, vec![[0, 1, 2], [3, 4, 5]]);
    assert_eq!(mesh.verts.len(), 6);
    assert_eq!(
        mesh.normals.unwrap(),
        vec![Vec3::Z, Vec3::Z, Vec3::Z, Vec3::NEG_Z, Vec3::NEG_Z, Vec3::NEG_Z]
    );
}

#[test]
fn texture_coordinates_follow_their_vertices() {
    let polys = vec![vec![
        corner(2, Some(1), None),
        corner(1, Some(0), None),
        corner(0, Some(1), None),
    ]];
    let uvs = vec![Vec2::new(0.0, 0.0), Vec2::new(1.0, 1.0)];
    let mesh = Mesh::from_corners(&polys, &square_positions(), &vec![], &uvs).unwrap();
    assert_eq!(mesh.vert_uv.unwrap(), vec![uvs[1], uvs[0], uvs[1]]);
    assert!(mesh.normals.is_none());
}

#[test]
fn polygons_that_are_not_triangles_are_skipped() {
    let polys = vec![
        vec![
            corner(0, None, None),
            corner(1, None, None),
            corner(2, None, None),
            corner(3, None, None),
        ],
        vec![corner(1, None, None), corner(2, None, None)],
        vec![corner(3, None, None), corner(2, None, None), corner(1, None, None)],
    ];
    let positions = square_positions();
    let mesh = Mesh::from_corners(&polys, &positions, &vec![], &vec![]).unwrap();
    assert_eq!(mesh.tris, vec![[0, 1, 2]]);
    assert_eq!(mesh.verts, vec![positions[3], positions[2], positions[1]]);
}

#[test]
fn empty_group_gives_empty_mesh() {
    let mesh = Mesh::from_corners(&vec![], &square_positions(), &vec![], &vec![]).unwrap();
    assert!(mesh.tris.is_empty());
    assert!(mesh.verts.is_empty());
}

#[test]
fn position_out_of_range_is_rejected() {
    let polys = vec![vec![corner(0, None, None), corner(1, None, None), corner(4, None, None)]];
    let r = Mesh::from_corners(&polys, &square_positions(), &vec![], &vec![]);
    assert_eq!(r.unwrap_err(), MeshError::InvalidCorner);
}

#[test]
fn normal_out_of_range_is_rejected() {
    let polys = vec![vec![
        corner(0, None, Some(0)),
        corner(1, None, Some(1)),
        corner(2, None, Some(0)),
    ]];
    let r = Mesh::from_corners(&polys, &square_positions(), &vec![Vec3::Z], &vec![]);
    assert_eq!(r.unwrap_err(), MeshError::InvalidCorner);
}

#[test]
fn missing_normal_beside_others_is_rejected() {
    let polys = vec![
        vec![corner(0, None, Some(0)), corner(1, None, Some(0)), corner(2, None, Some(0))],
        vec![corner(0, None, None), corner(2, None, None), corner(3, None, None)],
    ];
    let r = Mesh::from_corners(&polys, &square_positions(), &vec![Vec3::Z], &vec![]);
    assert_eq!(r.unwrap_err(), MeshError::InvalidCorner);
}

#[test]
fn missing_uv_beside_others_is_rejected() {
    let polys = vec![vec![
        corner(0, Some(0), None),
        corner(1, None, None),
        corner(2, Some(0), None),
    ]];
    let r = Mesh::from_corners(&polys, &square_positions(), &vec![], &vec![Vec2::ZERO]);
    assert_eq!(r.unwrap_err(), MeshError::InvalidCorner);
}

#[test]
fn skipped_polygons_are_not_checked() {
    let polys = vec![
        vec![corner(9, None, None), corner(9, None, None)],
        vec![corner(0, None, None), corner(1, None, None), corner(2, None, None)],
    ];
    assert!(Mesh::from_corners(&polys, &square_positions(), &vec![], &vec![]).is_ok());
}
