use oxide::aabb::AABB;
use oxide::geometry::mesh::{MeshBVH, MeshBVHNode, Triangle};
use oxide::geometry::sphere::Sphere;
use oxide::vec3::{Edge3, Normal3, Vec3};

fn v(x: i32, y: i32, z: i32) -> Vec3 {
    Vec3::new(x, y, z)
}

fn bx(a: (i32, i32, i32), b: (i32, i32, i32)) -> AABB {
    AABB::new(v(a.0, a.1, a.2), v(b.0, b.1, b.2))
}

fn tri_at(x: i32) -> Triangle {
    Triangle::new(v(x, 0, 0), v(x + 1, 0, 0), v(x, 1, 0))
}

#[test]
fn triangle_edges_and_normal() {
    let t = Triangle::new(v(1, 2, 3), v(4, 2, 3), v(1, 7, 3));
    assert_eq!(t.e01, Edge3 { x: 3, y: 0, z: 0 });
    assert_eq!(t.e02, Edge3 { x: 0, y: 5, z: 0 });
    assert_eq!(t.normal, Normal3 { x: 0, y: 0, z: 15 });
    assert_eq!(t.v0, v(1, 2, 3));
    assert_eq!(t.v1, v(4, 2, 3));
    assert_eq!(t.v2, v(1, 7, 3));
}

#[test]
fn triangle_extreme_coordinates() {
    let t = Triangle::new(v(i32::MIN, i32::MIN, 0), v(i32::MAX, i32::MIN, 0), v(i32::MIN, i32::MAX, 0));
    let d = (i32::MAX as i64) - (i32::MIN as i64);
    assert_eq!(t.e01, Edge3 { x: d, y: 0, z: 0 });
    assert_eq!(t.e02, Edge3 { x: 0, y: d, z: 0 });
    assert_eq!(t.normal, Normal3 { x: 0, y: 0, z: (d as i128) * (d as i128) });
}

#[test]
fn single_triangle_mesh() {
    let m = MeshBVH::new(vec![tri_at(4)], ());
    assert_eq!(m.root, 0);
    assert_eq!(
        m.nodes,
        vec![MeshBVHNode { bbox: bx((4, 0, 0), (5, 1, 0)), left: 0, right: 0, is_leaf: true, triangle_index: 0 }]
    );
    assert_eq!(m.bounding_box(), bx((4, 0, 0), (5, 1, 0)));
}

#[test]
fn three_triangle_mesh() {
    let (a, b, c) = (tri_at(10), tri_at(0), tri_at(20));
    let m = MeshBVH::new(vec![a, b, c], ());
    assert_eq!(m.triangles, vec![b, a, c]);
    assert_eq!(
        m.nodes,
        vec![
            MeshBVHNode { bbox: bx((0, 0, 0), (21, 1, 0)), left: 1, right: 2, is_leaf: false, triangle_index: 0 },
            MeshBVHNode { bbox: bx((0, 0, 0), (1, 1, 0)), left: 0, right: 0, is_leaf: true, triangle_index: 0 },
            MeshBVHNode { bbox: bx((10, 0, 0), (21, 1, 0)), left: 3, right: 4, is_leaf: false, triangle_index: 0 },
            MeshBVHNode { bbox: bx((10, 0, 0), (11, 1, 0)), left: 0, right: 0, is_leaf: true, triangle_index: 1 },
            MeshBVHNode { bbox: bx((20, 0, 0), (21, 1, 0)), left: 0, right: 0, is_leaf: true, triangle_index: 2 },
        ]
    );
    assert_eq!(m.bounding_box(), bx((0, 0, 0), (21, 1, 0)));
}

#[test]
fn larger_mesh_is_sound() {
    let tris: Vec<Triangle> = (0..25).map(|i| tri_at((i * 7919) % 101 - 50)).collect();
    let m = MeshBVH::new(tris.clone(), ());
    assert_eq!(m.nodes.len(), 49);
    let mut leaves = 0;
    for (i, n) in m.nodes.iter().enumerate() {
        let holds = |b: &AABB, p: &Vec3| {
            b.min.x <= p.x && p.x <= b.max.x && b.min.y <= p.y && p.y <= b.max.y && b.min.z <= p.z && p.z <= b.max.z
        };
        if n.is_leaf {
            leaves += 1;
            let t = &m.triangles[n.triangle_index];
            assert!(holds(&n.bbox, &t.v0) && holds(&n.bbox, &t.v1) && holds(&n.bbox, &t.v2));
        } else {
            assert!(i < n.left && n.left < m.nodes.len());
            assert!(i < n.right && n.right < m.nodes.len());
            for c in [n.left, n.right] {
                let cb = m.nodes[c].bbox;
                assert!(holds(&n.bbox, &cb.min) && holds(&n.bbox, &cb.max));
            }
        }
    }
    assert_eq!(leaves, 25);
    let mut named: Vec<usize> = m.nodes.iter().filter(|n| n.is_leaf).map(|n| n.triangle_index).collect();
    named.sort();
    assert_eq!(named, (0..25).collect::<Vec<_>>());
    let mut xs: Vec<i32> = m.triangles.iter().map(|t| t.v0.x).collect();
    let mut ys: Vec<i32> = tris.iter().map(|t| t.v0.x).collect();
    xs.sort();
    ys.sort();
    assert_eq!(xs, ys);
}

#[test]
fn cube_mesh() {
    let m = MeshBVH::build_cube(v(0, 0, -5), 1, "red");
    assert_eq!(m.material, "red");
    assert_eq!(m.triangles.len(), 12);
    assert_eq!(m.nodes.len(), 23);
    assert_eq!(m.bounding_box(), bx((-1, -1, -6), (1, 1, -4)));
    assert!(m.triangles.contains(&Triangle::new(v(-1, -1, -6), v(1, -1, -6), v(1, 1, -6))));
    assert!(m.triangles.contains(&Triangle::new(v(-1, -1, -4), v(1, -1, -4), v(1, -1, -6))));
}

#[test]
fn mesh_from_indexed_faces() {
    let vertices = vec![v(0, 0, 0), v(1, 0, 0), v(0, 1, 0), v(0, 0, 1)];
    let faces = vec![[0, 1, 2], [0, 1, 3]];
    let m = MeshBVH::from_stl(&vertices, &faces, 7u8);
    assert_eq!(m.material, 7u8);
    assert_eq!(m.triangles.len(), 2);
    assert_eq!(m.nodes.len(), 3);
    // box of everything: extents 1, 1, 1 so the split axis is z; keys 0 and 1
    assert_eq!(m.triangles[0], Triangle::new(v(0, 0, 0), v(1, 0, 0), v(0, 1, 0)));
    assert_eq!(m.triangles[1], Triangle::new(v(0, 0, 0), v(1, 0, 0), v(0, 0, 1)));
    assert_eq!(m.bounding_box(), bx((0, 0, 0), (1, 1, 1)));
}

#[test]
fn empty_mesh_has_zero_box() {
    let m = MeshBVH { nodes: vec![], triangles: vec![], material: (), root: 0 };
    assert_eq!(m.bounding_box(), AABB::zero());
}

#[test]
fn sphere_box() {
    let s = Sphere { center: v(1, -2, 3), radius: 4, material: "glass" };
    assert_eq!(s.bounding_box(), bx((-3, -6, -1), (5, 2, 7)));
    assert_eq!(s.material, "glass");
}

fn spans(n: usize, start: usize, out: &mut Vec<(usize, usize)>) {
    out.push((start, start + n));
    if n > 1 {
        let m = n / 2;
        spans(m, start, out);
        spans(n - m, start + m, out);
    }
}

fn box_of(tris: &[Triangle]) -> AABB {
    let mut b = bx((i32::MAX, i32::MAX, i32::MAX), (i32::MIN, i32::MIN, i32::MIN));
    for t in tris {
        for p in [t.v0, t.v1, t.v2] {
            b.min = v(b.min.x.min(p.x), b.min.y.min(p.y), b.min.z.min(p.z));
            b.max = v(b.max.x.max(p.x), b.max.y.max(p.y), b.max.z.max(p.z));
        }
    }
    b
}

#[test]
fn mesh_nodes_laid_out_over_spans() {
    let tris: Vec<Triangle> = (0..13)
        .map(|i| Triangle::new(v(i * 3 % 7, i * 5 % 11, 0), v(i * 3 % 7 + 2, i * 5 % 11, 1), v(i * 3 % 7, i * 5 % 11 + 1, 2)))
        .collect();
    let m = MeshBVH::new(tris, ());
    let mut sp = vec![];
    spans(13, 0, &mut sp);
    assert_eq!(sp.len(), m.nodes.len());
    for (i, n) in m.nodes.iter().enumerate() {
        let (s, e) = sp[i];
        assert_eq!(n.bbox, box_of(&m.triangles[s..e]));
        assert_eq!(n.is_leaf, e - s == 1);
        if n.is_leaf {
            assert_eq!(n.triangle_index, s);
        } else {
            let mid = (s + e) / 2;
            assert_eq!(n.left, i + 1);
            assert_eq!(n.right, i + 2 * (mid - s));
            assert_eq!(sp[n.left], (s, mid));
            assert_eq!(sp[n.right], (mid, e));
            let axis = n.bbox.widest_axis();
            let key = |t: &Triangle| t.v0.get(axis) as i64 + t.v1.get(axis) as i64 + t.v2.get(axis) as i64;
            let lmax = m.triangles[s..mid].iter().map(key).max().unwrap();
            let rmin = m.triangles[mid..e].iter().map(key).min().unwrap();
            assert!(lmax <= rmin);
        }
    }
}

#[test]
fn range_box_splits_into_union() {
    let tris: Vec<Triangle> = (0..6).map(|i| tri_at(i * 9 % 5 - 2)).collect();
    let whole = box_of(&tris[1..5]);
    assert_eq!(whole, AABB::of_boxes(&box_of(&tris[1..3]), &box_of(&tris[3..5])));
    let inner = box_of(&tris[2..4]);
    assert!(whole.min.x <= inner.min.x && inner.max.x <= whole.max.x);
}

#[test]
fn mesh_keeps_its_material() {
    let m = MeshBVH::new(vec![tri_at(0), tri_at(3)], String::from("lambertian"));
    assert_eq!(m.material, "lambertian");
}
