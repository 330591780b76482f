use glam::Vec3;
use raytrace_scene::builder::BvhBuilder;
use raytrace_scene::mesh::{Bvh, BvhContent, Mesh, MAX_DEPTH};

/// Triangles laid out along the x axis, one unit apart.
fn strip(n: usize) -> Mesh {
    let mut verts = Vec::new();
    let mut tris = Vec::new();
    for i in 0..n {
        let x = i as f32;
        verts.push(Vec3::new(x, 0.0, 0.0));
        verts.push(Vec3::new(x + 0.5, 0.0, 0.0));
        verts.push(Vec3::new(x, 1.0, 0.0));
        tris.push([3 * i, 3 * i + 1, 3 * i + 2]);
    }
    Mesh {
        bvh: None,
        tris,
        verts,
        normals: None,
        vert_cols: None,
        vert_uv: None,
    }
}

/// x of each triangle's first corner, by original index.
fn xs_of(mesh: &Mesh) -> Vec<f32> {
    mesh.tris.iter().map(|t| mesh.verts[t[0]].x).collect()
}

/// Runs the builder with `answer` deciding each cut, then attaches the
/// hierarchy, with boxes spanning the x of each node's triangles.
fn build_with(
    mesh: &mut Mesh,
    mut answer: impl FnMut(&[usize], usize, usize) -> Option<Vec<bool>>,
) -> (BvhBuilder, usize) {
    let xs = xs_of(mesh);
    let mut builder = BvhBuilder::new(mesh.tris.len()).unwrap();
    let mut asked = 0;
    while let Some((begin, end)) = builder.next_range() {
        asked += 1;
        let cut = answer(builder.order(), begin, end);
        builder.step(cut);
    }
    let bounds: Vec<(Vec3, Vec3)> = (0..builder.node_count())
        .map(|k| {
            let (b, e) = builder.node_range(k).unwrap();
            let vals: Vec<f32> = builder.order()[b..e].iter().map(|&i| xs[i]).collect();
            let lo = vals.iter().cloned().fold(f32::MAX, f32::min);
            let hi = vals.iter().cloned().fold(f32::MIN, f32::max);
            (Vec3::new(lo, 0.0, 0.0), Vec3::new(hi + 0.5, 1.0, 0.0))
        })
        .collect();
    assert!(mesh.create_bvh(&builder, &bounds));
    (builder, asked)
}

/// Cuts each range at the mean x of its triangles.
fn mean_cut(xs: Vec<f32>) -> impl FnMut(&[usize], usize, usize) -> Option<Vec<bool>> {
    move |order, begin, end| {
        let vals: Vec<f32> = order[begin..end].iter().map(|&i| xs[i]).collect();
        let mean = vals.iter().sum::<f32>() / vals.len() as f32;
        Some(vals.iter().map(|&x| x > mean).collect())
    }
}

/// Puts only the last triangle of a range beyond the cut.
fn peel_last(_order: &[usize], begin: usize, end: usize) -> Option<Vec<bool>> {
    Some((begin..end).map(|i| i == end - 1).collect())
}

/// Leaf ranges, left to right, with the depth of each leaf.
fn leaves(b: &Bvh, depth: usize, out: &mut Vec<(usize, usize, usize)>) {
    match &b.content {
        BvhContent::Leaf(l) => out.push((l.begin, l.end, depth)),
        BvhContent::Node(p) => {
            leaves(&p.0, depth + 1, out);
            leaves(&p.1, depth + 1, out);
        }
    }
}

fn leaf_list(mesh: &Mesh) -> Vec<(usize, usize, usize)> {
    let mut out = Vec::new();
    leaves(mesh.bvh.as_ref().unwrap(), 0, &mut out);
    out
}

#[test]
fn four_triangle_quad_stays_one_leaf() {
    let mut mesh = strip(4);
    let before = mesh.tris.clone();
    let xs = xs_of(&mesh);
    let (_, asked) = build_with(&mut mesh, mean_cut(xs));
    assert_eq!(leaf_list(&mesh), vec![(0, 4, 0)]);
    assert_eq!(mesh.tris, before);
    assert_eq!(asked, 0);
}

#[test]
fn single_triangle_is_one_leaf() {
    let mut mesh = strip(1);
    let xs = xs_of(&mesh);
    build_with(&mut mesh, mean_cut(xs));
    assert_eq!(leaf_list(&mesh), vec![(0, 1, 0)]);
}

#[test]
fn mean_cut_splits_eight_triangles_in_two() {
    let mut mesh = strip(8);
    let xs = xs_of(&mesh);
    build_with(&mut mesh, mean_cut(xs));
    assert_eq!(leaf_list(&mesh), vec![(0, 4, 1), (4, 8, 1)]);
    let bvh = mesh.bvh.as_ref().unwrap();
    assert_eq!(bvh.min, Vec3::new(0.0, 0.0, 0.0));
    assert_eq!(bvh.max, Vec3::new(7.5, 1.0, 0.0));
    let children = bvh.content.as_node().unwrap();
    assert_eq!(children.0.max, Vec3::new(3.5, 1.0, 0.0));
    assert_eq!(children.1.min, Vec3::new(4.0, 0.0, 0.0));
    assert!(bvh.content.as_leaf().is_none());
}

#[test]
fn partition_moves_triangles_behind_the_cut() {
    // Triangles at x = 7, 0, 6, 1, 5, 2, 4, 3: the mean is 3.5.
    let order = [7usize, 0, 6, 1, 5, 2, 4, 3];
    let base = strip(8);
    let tris: Vec<[usize; 3]> = order.iter().map(|&i| base.tris[i]).collect();
    let mut mesh = Mesh { tris, ..base };
    let before = mesh.tris.clone();
    let xs0 = xs_of(&mesh);
    let (builder, _) = build_with(&mut mesh, mean_cut(xs0));
    let xs = xs_of(&mesh);
    // Each side keeps its former order: 0, 1, 2, 3 in front, 7, 6, 5, 4 behind.
    assert_eq!(xs, vec![0.0, 1.0, 2.0, 3.0, 7.0, 6.0, 5.0, 4.0]);
    assert_eq!(builder.order(), &vec![1, 3, 5, 7, 0, 2, 4, 6]);
    for (i, &k) in builder.order().iter().enumerate() {
        assert_eq!(mesh.tris[i], before[k]);
    }
}

fn base_tris_sorted(n: usize) -> Vec<[usize; 3]> {
    let mut t = strip(n).tris;
    t.sort();
    t
}

#[test]
fn leaves_cover_every_triangle_once() {
    let mut mesh = strip(100);
    let xs = xs_of(&mesh);
    build_with(&mut mesh, mean_cut(xs));
    let list = leaf_list(&mesh);
    let mut next = 0;
    for (begin, end, _) in &list {
        assert_eq!(*begin, next);
        assert!(end > begin);
        next = *end;
    }
    assert_eq!(next, 100);
    assert!(list.len() > 1);
    let mut sorted = mesh.tris.clone();
    sorted.sort();
    assert_eq!(sorted, base_tris_sorted(100));
}

#[test]
fn depth_stops_at_the_limit() {
    let mut mesh = strip(40);
    build_with(&mut mesh, peel_last);
    let list = leaf_list(&mesh);
    let deepest = list.iter().map(|l| l.2).max().unwrap();
    assert_eq!(deepest, MAX_DEPTH);
    let last_deep = list.iter().find(|l| l.2 == MAX_DEPTH).unwrap();
    assert_eq!(last_deep.1 - last_deep.0, 40 - MAX_DEPTH);
}

#[test]
fn small_ranges_are_not_split() {
    let mut mesh = strip(10);
    build_with(&mut mesh, peel_last);
    let list = leaf_list(&mesh);
    // 10 -> 9 -> ... -> 4: six cuts, then a range of four is left alone.
    assert_eq!(list[0], (0, 4, 6));
    assert_eq!(list.len(), 7);
}

#[test]
fn cut_with_an_empty_side_is_refused() {
    let mut mesh = strip(9);
    let before = mesh.tris.clone();
    build_with(&mut mesh, |_, begin, end| Some(vec![true; end - begin]));
    assert_eq!(leaf_list(&mesh), vec![(0, 9, 0)]);
    assert_eq!(mesh.tris, before);
}

#[test]
fn declined_cut_leaves_one_leaf() {
    let mut mesh = strip(9);
    build_with(&mut mesh, |_, _, _| None);
    assert_eq!(leaf_list(&mesh), vec![(0, 9, 0)]);
}

#[test]
fn well_formedness_is_checked() {
    let mut mesh = strip(9);
    assert!(mesh.is_wf());
    let xs = xs_of(&mesh);
    build_with(&mut mesh, mean_cut(xs));
    assert!(mesh.is_wf());
    let mut short_normals = strip(2);
    short_normals.normals = Some(vec![Vec3::Z; 5]);
    assert!(!short_normals.is_wf());
    let mut bad_corner = strip(2);
    bad_corner.tris[0] = [0, 1, 6];
    assert!(!bad_corner.is_wf());
    // A hierarchy that covers fewer triangles than the mesh has.
    let mut stale = strip(9);
    let mut small = strip(3);
    let xs = xs_of(&small);
    build_with(&mut small, mean_cut(xs));
    stale.bvh = small.bvh.take();
    assert!(!stale.is_wf());
}

#[test]
fn unit_quad_of_four_triangles_is_one_leaf() {
    // Four triangles fanned around the centre of the unit square.
    let verts = vec![
        Vec3::new(0.0, 0.0, 0.0),
        Vec3::new(1.0, 0.0, 0.0),
        Vec3::new(1.0, 1.0, 0.0),
        Vec3::new(0.0, 1.0, 0.0),
        Vec3::new(0.5, 0.5, 0.0),
    ];
    let tris = vec![[0, 1, 4], [1, 2, 4], [2, 3, 4], [3, 0, 4]];
    let mut mesh = Mesh {
        bvh: None,
        tris: tris.clone(),
        verts,
        normals: None,
        vert_cols: None,
        vert_uv: None,
    };
    let xs = xs_of(&mesh);
    build_with(&mut mesh, mean_cut(xs));
    let list = leaf_list(&mesh);
    assert_eq!(list, vec![(0, 4, 0)]);
    assert_eq!(mesh.tris, tris);
}

#[test]
fn builder_reports_each_decision() {
    let mut builder = BvhBuilder::new(6).unwrap();
    assert_eq!(builder.next_range(), Some((0, 6)));
    // A wrong-sized answer is no cut.
    builder.step(Some(vec![true, false]));
    assert_eq!(builder.next_range(), None);
    assert_eq!(builder.node_count(), 1);

    let mut builder = BvhBuilder::new(12).unwrap();
    builder.step(Some(vec![
        true, false, true, false, true, false, true, false, true, false, true, false,
    ]));
    assert_eq!(builder.order(), &vec![1, 3, 5, 7, 9, 11, 0, 2, 4, 6, 8, 10]);
    assert_eq!(builder.node_count(), 3);
    assert_eq!(builder.node_range(1), Some((0, 6)));
    assert_eq!(builder.node_range(2), Some((6, 12)));
    assert_eq!(builder.node_range(3), None);
    // The first child comes up first.
    assert_eq!(builder.next_range(), Some((0, 6)));
    builder.step(None);
    assert_eq!(builder.next_range(), Some((6, 12)));
    builder.step(None);
    assert_eq!(builder.next_range(), None);
    assert!(BvhBuilder::new(0).is_none());
}

#[test]
fn mismatched_builder_or_boxes_change_nothing() {
    let mut mesh = strip(6);
    let builder = BvhBuilder::new(5).unwrap();
    assert!(!mesh.create_bvh(&builder, &vec![(Vec3::ZERO, Vec3::ONE)]));
    assert!(mesh.bvh.is_none());
    let builder = BvhBuilder::new(6).unwrap();
    assert!(!mesh.create_bvh(&builder, &vec![]));
    assert!(mesh.bvh.is_none());
    assert!(mesh.create_bvh(&builder, &vec![(Vec3::ZERO, Vec3::ONE)]));
    assert!(mesh.bvh.is_some());
}
