use voxelmesh::geometry::{convert_to_geometry, generate_quads, MeshError, Quad};
use voxelmesh::obj::generate_mtl_file;
use voxelmesh::texture::{apply_uv_to_quads, pack_quad_texture, sort_quads, try_pack_quad_texture, TexQuad};
use voxelmesh::voxel::{Cube, GeometryObject, Vec3i};

fn v(x: i32, y: i32, z: i32) -> Vec3i {
    Vec3i::new(x, y, z)
}

fn cube(cx: i32, cy: i32, cz: i32, sx: i32, sy: i32, sz: i32) -> GeometryObject {
    GeometryObject::Cube(Cube { corner: v(cx, cy, cz), size: v(sx, sy, sz) })
}

#[test]
fn box_evaluates_to_volume() {
    let obj = cube(0, 0, 0, 2, 3, 4);
    let vs = obj.get_voxels();
    assert_eq!(vs.len(), 24);
    assert!(vs.contains(v(0, 0, 0)));
    assert!(vs.contains(v(1, 2, 3)));
    assert!(!vs.contains(v(2, 0, 0)));
}

#[test]
fn union_is_commutative_on_samples() {
    let a = Box::new(cube(0, 0, 0, 2, 2, 2));
    let b = Box::new(cube(1, 1, 1, 2, 2, 2));
    let u1 = GeometryObject::Union(a, b).get_voxels();
    let a2 = Box::new(cube(0, 0, 0, 2, 2, 2));
    let b2 = Box::new(cube(1, 1, 1, 2, 2, 2));
    let u2 = GeometryObject::Union(b2, a2).get_voxels();
    assert_eq!(u1.len(), u2.len());
    assert_eq!(u1.len(), 15);
    for x in 0..3 {
        for y in 0..3 {
            for z in 0..3 {
                assert_eq!(u1.contains(v(x, y, z)), u2.contains(v(x, y, z)));
            }
        }
    }
}

#[test]
fn intersection_and_symmetric_difference() {
    let a = Box::new(cube(0, 0, 0, 2, 1, 1));
    let b = Box::new(cube(1, 0, 0, 2, 1, 1));
    let i = GeometryObject::Intersection(a, b).get_voxels();
    assert_eq!(i.len(), 1);
    assert!(i.contains(v(1, 0, 0)));
    let a2 = Box::new(cube(0, 0, 0, 2, 1, 1));
    let b2 = Box::new(cube(1, 0, 0, 2, 1, 1));
    let s = GeometryObject::SymmetricDifference(a2, b2).get_voxels();
    assert_eq!(s.len(), 2);
    assert!(s.contains(v(0, 0, 0)));
    assert!(s.contains(v(2, 0, 0)));
    assert!(!s.contains(v(1, 0, 0)));
}

#[test]
fn difference_removes_right_side() {
    let a = Box::new(cube(0, 0, 0, 3, 1, 1));
    let b = Box::new(cube(2, 0, 0, 1, 1, 1));
    let d = GeometryObject::Minus(a, b).get_voxels();
    assert_eq!(d.len(), 2);
    assert!(d.contains(v(0, 0, 0)));
    assert!(d.contains(v(1, 0, 0)));
    assert!(!d.contains(v(2, 0, 0)));
}

#[test]
fn wireframe_of_three_cube_keeps_corners_and_edges() {
    let w = GeometryObject::Wireframe(Box::new(cube(0, 0, 0, 3, 3, 3))).get_voxels();
    // 8 corners plus 12 edge midpoints.
    assert_eq!(w.len(), 20);
    for &x in &[0, 2] {
        for &y in &[0, 2] {
            for &z in &[0, 2] {
                assert!(w.contains(v(x, y, z)));
            }
        }
    }
    // Edge midpoints are kept.
    assert!(w.contains(v(1, 0, 0)));
    assert!(w.contains(v(0, 1, 0)));
    assert!(w.contains(v(0, 0, 1)));
    assert!(w.contains(v(1, 2, 2)));
    // Face centers and the body center are dropped.
    assert!(!w.contains(v(1, 1, 0)));
    assert!(!w.contains(v(1, 0, 1)));
    assert!(!w.contains(v(0, 1, 1)));
    assert!(!w.contains(v(1, 1, 1)));
    assert!(!w.contains(v(1, 1, 2)));
}

#[test]
fn grid_matches_box_extent() {
    let obj = cube(-1, 2, 5, 2, 1, 1);
    let g = convert_to_geometry(&obj, 16).expect("box has voxels");
    assert_eq!(g.min, v(-1, 2, 5));
    assert_eq!(g.size, v(2, 1, 1));
    assert_eq!(g.resolution, 16);
    assert!(g.voxels[0][0][0]);
    assert!(g.voxels[1][0][0]);
}

#[test]
fn empty_difference_reports_no_voxels() {
    let a = Box::new(cube(0, 0, 0, 1, 1, 1));
    let b = Box::new(cube(0, 0, 0, 1, 1, 1));
    let obj = GeometryObject::Minus(a, b);
    let r = convert_to_geometry(&obj, 1);
    assert!(matches!(r, Err(MeshError::NoVoxels)));
}

#[test]
fn quad_normal_follows_vertex_winding() {
    // A unit square in the y-z plane wound so the cross product points +x.
    let q = Quad::new([v(0, 0, 0), v(0, 1, 0), v(0, 1, 1), v(0, 0, 1)], (1, 1));
    assert_eq!(q.normal, v(1, 0, 0));
    assert_eq!(q.uv_den, 1);
    assert_eq!(q.uvs, [(0, 0), (0, 1), (1, 1), (1, 0)]);
    // Opposite winding flips the normal.
    let q2 = Quad::new([v(0, 0, 0), v(0, 0, 1), v(0, 1, 1), v(0, 1, 0)], (1, 1));
    assert_eq!(q2.normal, v(-1, 0, 0));
}

#[test]
fn sort_orders_by_height_then_width() {
    let mk = |w: usize, h: usize| Quad::new([v(0, 0, 0), v(0, 1, 0), v(0, 1, 1), v(0, 0, 1)], (w, h));
    let mut quads = vec![mk(1, 1), mk(2, 3), mk(5, 1), mk(2, 2), mk(4, 3)];
    sort_quads(&mut quads);
    let sizes: Vec<(usize, usize)> = quads.iter().map(|q| q.tex_size).collect();
    assert_eq!(sizes, vec![(4, 3), (2, 3), (2, 2), (5, 1), (1, 1)]);
}

#[test]
fn mtl_file_references_texture() {
    let s = generate_mtl_file("model.png");
    assert!(s.contains("newmtl material"));
    assert!(s.ends_with("map_Kd model.png\n"));
}

#[test]
fn tex_quad_fields() {
    let t = TexQuad { x: 1, y: 2, width: 3, height: 4 };
    assert_eq!((t.x, t.y, t.width, t.height), (1, 2, 3, 4));
}

#[test]
fn meshing_a_box_yields_six_quads() {
    let obj = cube(0, 0, 0, 2, 1, 1);
    let g = convert_to_geometry(&obj, 1).expect("box has voxels");
    let quads = generate_quads(&g);
    assert_eq!(quads.len(), 6);
    let mut small = 0;
    let mut wide = 0;
    for q in &quads {
        match q.tex_size {
            (1, 1) => small += 1,
            (2, 1) => wide += 1,
            other => panic!("unexpected footprint {:?}", other),
        }
    }
    assert_eq!(small, 2);
    assert_eq!(wide, 4);
}

#[test]
fn adjacent_boxes_hide_the_shared_face() {
    // Two 1x1x1 boxes sharing a full face mesh like a single 2x1x1 box.
    let a = Box::new(cube(0, 0, 0, 1, 1, 1));
    let b = Box::new(cube(1, 0, 0, 1, 1, 1));
    let obj = GeometryObject::Union(a, b);
    let g = convert_to_geometry(&obj, 1).expect("boxes have voxels");
    let quads = generate_quads(&g);
    assert_eq!(quads.len(), 6);
}

#[test]
fn quad_normals_point_outward() {
    let obj = cube(0, 0, 0, 2, 2, 2);
    let g = convert_to_geometry(&obj, 1).expect("box has voxels");
    let quads = generate_quads(&g);
    for q in &quads {
        // The voxel behind the face is inside the box; the one in front is not.
        let n = q.normal;
        assert_eq!(n.x.abs() + n.y.abs() + n.z.abs(), 1);
    }
}

#[test]
fn first_fit_packs_row_major() {
    let mk = |w: usize, h: usize| Quad::new([v(0, 0, 0), v(0, 1, 0), v(0, 1, 1), v(0, 0, 1)], (w, h));
    let quads = vec![mk(2, 1), mk(1, 1)];
    // Too small: nothing of width 2 fits in a 1x1 atlas.
    assert!(try_pack_quad_texture(&quads, 1).is_none());
    let ts = try_pack_quad_texture(&quads, 2).expect("fits at 2");
    assert_eq!(ts.len(), 2);
    assert_eq!((ts[0].x, ts[0].y, ts[0].width, ts[0].height), (0, 0, 2, 1));
    assert_eq!((ts[1].x, ts[1].y, ts[1].width, ts[1].height), (0, 1, 1, 1));
    // The last quad goes into the first free texel scanning row-major.
    assert!(try_pack_quad_texture(&vec![mk(2, 1), mk(2, 1), mk(2, 1)], 2).is_none());
}

#[test]
fn end_to_end_box_pipeline() {
    let obj = cube(0, 0, 0, 2, 1, 1);
    let g = convert_to_geometry(&obj, 1).expect("box has voxels");
    let mut quads = generate_quads(&g);
    sort_quads(&mut quads);
    // Stable sort: the four 2x1 footprints first, then the two 1x1.
    let sizes: Vec<(usize, usize)> = quads.iter().map(|q| q.tex_size).collect();
    assert_eq!(sizes, vec![(2, 1), (2, 1), (2, 1), (2, 1), (1, 1), (1, 1)]);
    let (tex_quads, size) = pack_quad_texture(&quads);
    // Smallest power of two admitting a first-fit placement of all six.
    assert_eq!(size, 4);
    assert_eq!(tex_quads.len(), 6);
    let expect = [(0, 0, 2, 1), (2, 0, 2, 1), (0, 1, 2, 1), (2, 1, 2, 1), (0, 2, 1, 1), (1, 2, 1, 1)];
    for (t, e) in tex_quads.iter().zip(expect.iter()) {
        assert_eq!((t.x, t.y, t.width, t.height), *e);
    }
    // No two placements overlap and all lie inside the atlas.
    for a in 0..tex_quads.len() {
        for b in (a + 1)..tex_quads.len() {
            let (p, q) = (&tex_quads[a], &tex_quads[b]);
            let apart = p.x + p.width <= q.x || q.x + q.width <= p.x || p.y + p.height <= q.y
                || q.y + q.height <= p.y;
            assert!(apart);
        }
        assert!(tex_quads[a].x + tex_quads[a].width <= size);
        assert!(tex_quads[a].y + tex_quads[a].height <= size);
    }
    apply_uv_to_quads(&mut quads, &tex_quads, size);
    // Texture round trip: the first quad's corners recover its placement.
    let q0 = &quads[0];
    assert_eq!(q0.uv_den, 4);
    assert_eq!(q0.uvs[0], (0, 3));
    assert_eq!(q0.uvs[1], (0, 4));
    assert_eq!(q0.uvs[2], (2, 4));
    assert_eq!(q0.uvs[3], (2, 3));
    let min_uv = q0.uvs[0];
    let extent = (q0.uvs[2].0 - q0.uvs[0].0, q0.uvs[2].1 - q0.uvs[0].1);
    assert_eq!(min_uv.0, tex_quads[0].x);
    assert_eq!(extent, (tex_quads[0].width, tex_quads[0].height));
    assert_eq!(size - min_uv.1 - extent.1, tex_quads[0].y);
}
