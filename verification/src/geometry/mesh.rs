use vstd::prelude::*;

use crate::aabb::{AABB, vec_min, vec_max};
use crate::sort::{SortKey, sort_by_key, sort_range, lemma_sort_len, lemma_sort_contains};
use crate::vec3::{Vec3, Edge3, Normal3};

verus! {

/// A triangle of a mesh, with its two edges from `v0` and the normal direction
/// `e01 × e02`, all computed exactly. The normal is not of unit length: a unit
/// vector takes a square root, which integer coordinates cannot hold, so the
/// ray tests scale it to unit length when they need it.
#[derive(Clone, Copy, Debug, PartialEq, Eq, Structural)]
pub struct Triangle {
    pub v0: Vec3,
    pub v1: Vec3,
    pub v2: Vec3,
    pub normal: Normal3,
    pub e01: Edge3,
    pub e02: Edge3,
}

/// The triangle with corners `v0`, `v1`, `v2`.
pub open spec fn spec_triangle(v0: Vec3, v1: Vec3, v2: Vec3) -> Triangle {
    let e01 = v1.spec_sub(v0);
    let e02 = v2.spec_sub(v0);
    Triangle { v0, v1, v2, normal: e01.spec_cross(e02), e01, e02 }
}

impl Triangle {
    pub fn new(v0: Vec3, v1: Vec3, v2: Vec3) -> (r: Triangle)
        ensures
            r == spec_triangle(v0, v1, v2),
    {
        let e01 = v1.sub(&v0);
        let e02 = v2.sub(&v0);
        let normal = e01.cross(&e02);
        Triangle { v0, v1, v2, normal, e01, e02 }
    }
}

impl SortKey for Triangle {
    /// Three times the centroid along `axis`.
    open spec fn key(&self, axis: int) -> int {
        self.v0.axis(axis) + self.v1.axis(axis) + self.v2.axis(axis)
    }

    fn key_greater(&self, other: &Self, axis: usize) -> (r: bool) {
        let a = self.v0.get(axis) as i64 + self.v1.get(axis) as i64 + self.v2.get(axis) as i64;
        let b = other.v0.get(axis) as i64 + other.v1.get(axis) as i64 + other.v2.get(axis) as i64;
        a > b
    }
}

/// The box of no point at all: its low corner is the largest coordinate and its
/// high corner the smallest, so that joining any point gives that point's box.
pub open spec fn spec_empty_box() -> AABB {
    AABB {
        min: Vec3 { x: i32::MAX, y: i32::MAX, z: i32::MAX },
        max: Vec3 { x: i32::MIN, y: i32::MIN, z: i32::MIN },
    }
}

/// The box `b` grown to hold the point `p`.
pub open spec fn add_point(b: AABB, p: Vec3) -> AABB {
    AABB { min: vec_min(b.min, p), max: vec_max(b.max, p) }
}

/// The box `b` grown to hold the corners of `t`.
pub open spec fn add_triangle(b: AABB, t: Triangle) -> AABB {
    add_point(add_point(add_point(b, t.v0), t.v1), t.v2)
}

/// The box of the corners of the triangles of `s`.
pub open spec fn tri_box(s: Seq<Triangle>) -> AABB
    decreases s.len(),
{
    if s.len() == 0 {
        spec_empty_box()
    } else {
        add_triangle(tri_box(s.drop_last()), s.last())
    }
}

/// A node of the flat hierarchy of a mesh: a leaf names one triangle; an inner
/// node names the positions of its two children.
#[derive(Clone, Copy, Debug, PartialEq, Eq, Structural)]
pub struct MeshBVHNode {
    pub bbox: AABB,
    pub left: usize,
    pub right: usize,
    pub is_leaf: bool,
    pub triangle_index: usize,
}

/// A mesh of triangles with a bounding-volume hierarchy over them, its nodes
/// stored in one vector in depth-first order, and the material of its surface,
/// which the library keeps and hands back as it was given.
#[derive(Debug)]
pub struct MeshBVH<M> {
    pub nodes: Vec<MeshBVHNode>,
    pub triangles: Vec<Triangle>,
    pub material: M,
    pub root: usize,
}

/// The axis along which the triangles of `r` are sorted before they are split.
pub open spec fn split_axis(r: Seq<Triangle>) -> int {
    tri_box(r).spec_widest_axis()
}

/// The nodes of the hierarchy over the triangles `r`, which stand from position
/// `start` in the triangle list, when its first node goes at position `base` of
/// the node list: the root, then the nodes of the left half, then those of the
/// right half; the halves are those of `r` sorted stably by centroid along the
/// widest axis of its box, the first half the smaller.
#[verifier::opaque]
pub open spec fn mesh_nodes(r: Seq<Triangle>, start: int, base: int) -> Seq<MeshBVHNode>
    decreases r.len(),
{
    if r.len() == 0 {
        Seq::empty()
    } else if r.len() == 1 {
        seq![
            MeshBVHNode {
                bbox: tri_box(r),
                left: 0,
                right: 0,
                is_leaf: true,
                triangle_index: start as usize,
            },
        ]
    } else {
        let t = sort_by_key(r, split_axis(r));
        let m = r.len() / 2;
        proof {
            lemma_sort_len(r, split_axis(r));
        }
        let ln = mesh_nodes(t.subrange(0, m as int), start, base + 1);
        let rn = mesh_nodes(t.subrange(m as int, r.len() as int), start + m, base + 1 + ln.len());
        seq![
            MeshBVHNode {
                bbox: tri_box(r),
                left: (base + 1) as usize,
                right: (base + 1 + ln.len()) as usize,
                is_leaf: false,
                triangle_index: 0,
            },
        ] + ln + rn
    }
}

/// The order in which building the hierarchy leaves the triangles `r`.
#[verifier::opaque]
pub open spec fn mesh_order(r: Seq<Triangle>) -> Seq<Triangle>
    decreases r.len(),
{
    if r.len() <= 1 {
        r
    } else {
        let t = sort_by_key(r, split_axis(r));
        let m = r.len() / 2;
        proof {
            lemma_sort_len(r, split_axis(r));
        }
        mesh_order(t.subrange(0, m as int)) + mesh_order(t.subrange(m as int, r.len() as int))
    }
}

pub proof fn lemma_mesh_order_len(r: Seq<Triangle>)
    ensures
        mesh_order(r).len() == r.len(),
    decreases r.len(),
{
    reveal(mesh_order);
    if r.len() > 1 {
        let t = sort_by_key(r, split_axis(r));
        let m = r.len() / 2;
        lemma_sort_len(r, split_axis(r));
        lemma_mesh_order_len(t.subrange(0, m as int));
        lemma_mesh_order_len(t.subrange(m as int, r.len() as int));
    }
}

/// A hierarchy over `n >= 1` triangles has `2n - 1` nodes.
pub proof fn lemma_mesh_nodes_len(r: Seq<Triangle>, start: int, base: int)
    ensures
        r.len() >= 1 ==> mesh_nodes(r, start, base).len() == 2 * r.len() - 1,
    decreases r.len(),
{
    reveal(mesh_nodes);
    if r.len() > 1 {
        let t = sort_by_key(r, split_axis(r));
        let m = r.len() / 2;
        lemma_sort_len(r, split_axis(r));
        let ln = mesh_nodes(t.subrange(0, m as int), start, base + 1);
        lemma_mesh_nodes_len(t.subrange(0, m as int), start, base + 1);
        lemma_mesh_nodes_len(t.subrange(m as int, r.len() as int), start + m, base + 1 + ln.len());
    }
}

impl<M> MeshBVH<M> {
    /// The mesh holds the hierarchy built over the triangles `s`.
    pub open spec fn built_from(&self, s: Seq<Triangle>) -> bool {
        &&& self.triangles@ == mesh_order(s)
        &&& self.nodes@ == mesh_nodes(s, 0, 0)
        &&& self.root == 0
    }

    /// The box of the corners of the triangles `start..end`.
    fn compute_bbox(&self, start: usize, end: usize) -> (r: AABB)
        requires
            start <= end <= self.triangles@.len(),
        ensures
            r == tri_box(self.triangles@.subrange(start as int, end as int)),
    {
        let mut small = Vec3::new(i32::MAX, i32::MAX, i32::MAX);
        let mut big = Vec3::new(i32::MIN, i32::MIN, i32::MIN);
        let mut i = start;
        while i < end
            invariant
                start <= i <= end <= self.triangles@.len(),
                (AABB { min: small, max: big }) == tri_box(
                    self.triangles@.subrange(start as int, i as int),
                ),
            decreases end - i,
        {
            let tri = self.triangles[i];
            assert(self.triangles@.subrange(start as int, i + 1).drop_last()
                =~= self.triangles@.subrange(start as int, i as int));
            let vs = [tri.v0, tri.v1, tri.v2];
            let mut k: usize = 0;
            while k < 3
                invariant
                    0 <= k <= 3,
                    vs@ == seq![tri.v0, tri.v1, tri.v2],
                    (AABB { min: small, max: big }) == if k == 0 {
                        tri_box(self.triangles@.subrange(start as int, i as int))
                    } else if k == 1 {
                        add_point(tri_box(self.triangles@.subrange(start as int, i as int)), tri.v0)
                    } else if k == 2 {
                        add_point(
                            add_point(
                                tri_box(self.triangles@.subrange(start as int, i as int)),
                                tri.v0,
                            ),
                            tri.v1,
                        )
                    } else {
                        add_triangle(tri_box(self.triangles@.subrange(start as int, i as int)), tri)
                    },
                decreases 3 - k,
            {
                let v = vs[k];
                small.x = if v.x < small.x { v.x } else { small.x };
                small.y = if v.y < small.y { v.y } else { small.y };
                small.z = if v.z < small.z { v.z } else { small.z };
                big.x = if v.x > big.x { v.x } else { big.x };
                big.y = if v.y > big.y { v.y } else { big.y };
                big.z = if v.z > big.z { v.z } else { big.z };
                k = k + 1;
            }
            i = i + 1;
        }
        AABB::new(small, big)
    }
}

/// One step of the definitions of `mesh_nodes` and `mesh_order` for two or more
/// triangles.
proof fn lemma_mesh_unfold(s: Seq<Triangle>, start: int, base: int)
    ensures
        s.len() >= 2 ==> ({
            let t = sort_by_key(s, split_axis(s));
            let m = s.len() / 2;
            let ln = mesh_nodes(t.subrange(0, m as int), start, base + 1);
            let rn = mesh_nodes(t.subrange(m as int, s.len() as int), start + m, base + 1 + ln.len());
            &&& mesh_nodes(s, start, base) == seq![
                MeshBVHNode {
                    bbox: tri_box(s),
                    left: (base + 1) as usize,
                    right: (base + 1 + ln.len()) as usize,
                    is_leaf: false,
                    triangle_index: 0,
                },
            ] + ln + rn
            &&& mesh_order(s) == mesh_order(t.subrange(0, m as int)) + mesh_order(
                t.subrange(m as int, s.len() as int),
            )
        }),
        s.len() == 1 ==> mesh_nodes(s, start, base) == seq![
            MeshBVHNode {
                bbox: tri_box(s),
                left: 0,
                right: 0,
                is_leaf: true,
                triangle_index: start as usize,
            },
        ] && mesh_order(s) == s,
{
    reveal(mesh_nodes);
    reveal(mesh_order);
}

impl<M> MeshBVH<M> {
    /// Builds the hierarchy over the triangles `start..end`: pushes its nodes in
    /// depth-first order and leaves those triangles as `mesh_order` says; returns
    /// the position of its root.
    fn build_bvh(&mut self, start: usize, end: usize) -> (r: usize)
        requires
            start < end <= old(self).triangles@.len(),
            old(self).nodes@.len() + 2 * (end - start) <= usize::MAX,
        ensures
            r == old(self).nodes@.len(),
            final(self).root == old(self).root,
            final(self).material == old(self).material,
            final(self).nodes@ == old(self).nodes@ + mesh_nodes(
                old(self).triangles@.subrange(start as int, end as int),
                start as int,
                old(self).nodes@.len() as int,
            ),
            final(self).triangles@ == old(self).triangles@.subrange(0, start as int) + mesh_order(
                old(self).triangles@.subrange(start as int, end as int),
            ) + old(self).triangles@.subrange(end as int, old(self).triangles@.len() as int),
        decreases end - start,
    {
        proof {
            lemma_mesh_unfold(self.triangles@.subrange(start as int, end as int), start as int, self.nodes@.len() as int);
        }
        let ghost s = self.triangles@.subrange(start as int, end as int);
        let ghost orig = self.triangles@;
        let ghost nodes0 = self.nodes@;
        let node_index = self.nodes.len();
        let bbox = self.compute_bbox(start, end);
        let axis = bbox.widest_axis();
        sort_range(&mut self.triangles, start, end, axis);
        let ghost t = sort_by_key(s, axis as int);
        proof {
            lemma_sort_len(s, axis as int);
        }
        self.nodes.push(MeshBVHNode { bbox, left: 0, right: 0, is_leaf: false, triangle_index: 0 });
        if end - start == 1 {
            self.nodes.set(
                node_index,
                MeshBVHNode { bbox, left: 0, right: 0, is_leaf: true, triangle_index: start },
            );
            proof {
                crate::sort::lemma_sort_single(s, axis as int);
                assert(self.nodes@ =~= nodes0 + mesh_nodes(s, start as int, nodes0.len() as int));
                assert(self.triangles@ =~= orig.subrange(0, start as int) + mesh_order(s)
                    + orig.subrange(end as int, orig.len() as int));
            }
            return node_index;
        }
        let mid = start + (end - start) / 2;
        let ghost m = ((end - start) / 2) as int;
        let ghost sorted = self.triangles@;
        assert(sorted.subrange(start as int, mid as int) =~= t.subrange(0, m));
        assert(sorted.subrange(mid as int, end as int) =~= t.subrange(m, s.len() as int));
        proof {
            lemma_mesh_nodes_len(t.subrange(0, m), start as int, node_index + 1);
            lemma_mesh_order_len(t.subrange(0, m));
        }
        let left = self.build_bvh(start, mid);
        let ghost ln = mesh_nodes(t.subrange(0, m), start as int, node_index + 1);
        let ghost after_left = self.triangles@;
        assert(after_left.subrange(mid as int, end as int) =~= t.subrange(m, s.len() as int));
        let right = self.build_bvh(mid, end);
        let ghost rn = mesh_nodes(t.subrange(m, s.len() as int), mid as int, node_index + 1 + ln.len());
        proof {
            lemma_mesh_order_len(t.subrange(m, s.len() as int));
        }
        self.nodes.set(
            node_index,
            MeshBVHNode { bbox, left, right, is_leaf: false, triangle_index: 0 },
        );
        proof {
            assert(self.nodes@ =~= nodes0 + mesh_nodes(s, start as int, nodes0.len() as int));
            assert(self.triangles@ =~= orig.subrange(0, start as int) + mesh_order(s)
                + orig.subrange(end as int, orig.len() as int));
        }
        node_index
    }

    /// The mesh of `material` with the hierarchy built over `triangles` (at
    /// least one).
    pub fn new(triangles: Vec<Triangle>, material: M) -> (r: MeshBVH<M>)
        requires
            triangles@.len() >= 1,
            triangles@.len() <= usize::MAX / 2,
        ensures
            r.built_from(triangles@),
            r.material == material,
    {
        let ghost s = triangles@;
        let mut bvh = MeshBVH { nodes: Vec::new(), triangles, material, root: 0 };
        let n = bvh.triangles.len();
        assert(bvh.triangles@.subrange(0, n as int) =~= s);
        let root = bvh.build_bvh(0, n);
        bvh.root = root;
        proof {
            lemma_mesh_order_len(s);
            assert(bvh.triangles@ =~= mesh_order(s));
            assert(bvh.nodes@ =~= mesh_nodes(s, 0, 0));
        }
        bvh
    }

    /// The box of the whole mesh: that of the root node, or the zero box when
    /// there are no nodes.
    pub fn bounding_box(&self) -> (r: AABB)
        requires
            self.nodes@.len() == 0 || self.root < self.nodes@.len(),
        ensures
            r == if self.nodes@.len() == 0 {
                AABB::spec_zero()
            } else {
                self.nodes@[self.root as int].bbox
            },
    {
        if self.nodes.len() == 0 {
            AABB::zero()
        } else {
            self.nodes[self.root].bbox
        }
    }
}

/// The triangles of an indexed mesh: face `i` joins the vertices that its three
/// indices name.
pub open spec fn faces_triangles(vertices: Seq<Vec3>, faces: Seq<[usize; 3]>) -> Seq<Triangle> {
    Seq::new(
        faces.len(),
        |i: int|
            spec_triangle(
                vertices[faces[i][0] as int],
                vertices[faces[i][1] as int],
                vertices[faces[i][2] as int],
            ),
    )
}

/// Every index of every face names a vertex.
pub open spec fn faces_in_range(vertices: Seq<Vec3>, faces: Seq<[usize; 3]>) -> bool {
    forall|i: int, k: int| 0 <= i < faces.len() && 0 <= k < 3 ==> #[trigger] faces[i][k] < vertices.len()
}

/// The point `c + (dx, dy, dz)`.
pub open spec fn offset(c: Vec3, dx: int, dy: int, dz: int) -> Vec3 {
    Vec3 { x: (c.x + dx) as i32, y: (c.y + dy) as i32, z: (c.z + dz) as i32 }
}

/// The corners of the cube around `c` with half edge `h`: 0 to 3 on the side of
/// low z (counter-clockwise from the low corner), 4 to 7 above them.
pub open spec fn cube_corners(c: Vec3, h: int) -> Seq<Vec3> {
    seq![
        offset(c, -h, -h, -h),
        offset(c, h, -h, -h),
        offset(c, h, h, -h),
        offset(c, -h, h, -h),
        offset(c, -h, -h, h),
        offset(c, h, -h, h),
        offset(c, h, h, h),
        offset(c, -h, h, h),
    ]
}

/// The twelve triangles of the cube around `c` with half edge `h`, two per face.
pub open spec fn cube_triangles(c: Vec3, h: int) -> Seq<Triangle> {
    let v = cube_corners(c, h);
    seq![
        spec_triangle(v[0], v[1], v[2]),
        spec_triangle(v[0], v[2], v[3]),
        spec_triangle(v[1], v[5], v[6]),
        spec_triangle(v[1], v[6], v[2]),
        spec_triangle(v[5], v[4], v[7]),
        spec_triangle(v[5], v[7], v[6]),
        spec_triangle(v[4], v[0], v[3]),
        spec_triangle(v[4], v[3], v[7]),
        spec_triangle(v[3], v[2], v[6]),
        spec_triangle(v[3], v[6], v[7]),
        spec_triangle(v[4], v[5], v[1]),
        spec_triangle(v[4], v[1], v[0]),
    ]
}

/// `c - h` and `c + h` lie within the coordinate range.
pub open spec fn cube_fits(c: i32, h: i32) -> bool {
    &&& i32::MIN <= c - h <= i32::MAX
    &&& i32::MIN <= c + h <= i32::MAX
}

impl<M> MeshBVH<M> {
    /// The mesh of `material` over an indexed triangle list (as an STL file
    /// holds it): face `i` becomes the triangle over the vertices that its
    /// indices name.
    pub fn from_stl(vertices: &Vec<Vec3>, faces: &Vec<[usize; 3]>, material: M) -> (r: MeshBVH<M>)
        requires
            faces@.len() >= 1,
            faces@.len() <= usize::MAX / 2,
            faces_in_range(vertices@, faces@),
        ensures
            r.built_from(faces_triangles(vertices@, faces@)),
            r.material == material,
    {
        let mut triangles: Vec<Triangle> = Vec::new();
        let n = faces.len();
        let mut i: usize = 0;
        while i < n
            invariant
                n == faces@.len(),
                0 <= i <= n,
                faces_in_range(vertices@, faces@),
                triangles@ =~= faces_triangles(vertices@, faces@).subrange(0, i as int),
            decreases n - i,
        {
            let f = faces[i];
            assert(f[0] < vertices@.len() && f[1] < vertices@.len() && f[2] < vertices@.len()) by {
                assert(faces@[i as int][0] < vertices@.len());
                assert(faces@[i as int][1] < vertices@.len());
                assert(faces@[i as int][2] < vertices@.len());
            }
            let t = Triangle::new(vertices[f[0]], vertices[f[1]], vertices[f[2]]);
            triangles.push(t);
            i = i + 1;
        }
        assert(triangles@ =~= faces_triangles(vertices@, faces@));
        MeshBVH::new(triangles, material)
    }

    /// The mesh of `material` over the twelve triangles of the cube around
    /// `center` whose edges are `2 * half` long.
    pub fn build_cube(center: Vec3, half: i32, material: M) -> (r: MeshBVH<M>)
        requires
            cube_fits(center.x, half),
            cube_fits(center.y, half),
            cube_fits(center.z, half),
        ensures
            r.built_from(cube_triangles(center, half as int)),
            r.material == material,
    {
        let (cx, cy, cz) = (center.x, center.y, center.z);
        let v0 = Vec3::new(cx - half, cy - half, cz - half);
        let v1 = Vec3::new(cx + half, cy - half, cz - half);
        let v2 = Vec3::new(cx + half, cy + half, cz - half);
        let v3 = Vec3::new(cx - half, cy + half, cz - half);
        let v4 = Vec3::new(cx - half, cy - half, cz + half);
        let v5 = Vec3::new(cx + half, cy - half, cz + half);
        let v6 = Vec3::new(cx + half, cy + half, cz + half);
        let v7 = Vec3::new(cx - half, cy + half, cz + half);

        let triangles = vec![
            Triangle::new(v0, v1, v2),
            Triangle::new(v0, v2, v3),
            Triangle::new(v1, v5, v6),
            Triangle::new(v1, v6, v2),
            Triangle::new(v5, v4, v7),
            Triangle::new(v5, v7, v6),
            Triangle::new(v4, v0, v3),
            Triangle::new(v4, v3, v7),
            Triangle::new(v3, v2, v6),
            Triangle::new(v3, v6, v7),
            Triangle::new(v4, v5, v1),
            Triangle::new(v4, v1, v0),
        ];
        assert(triangles@ =~= cube_triangles(center, half as int));
        MeshBVH::new(triangles, material)
    }
}

} // verus!

verus! {

/// The box `b` holds the three corners of `t`.
pub open spec fn holds_triangle(b: AABB, t: Triangle) -> bool {
    &&& b.contains_point(t.v0)
    &&& b.contains_point(t.v1)
    &&& b.contains_point(t.v2)
}

/// Node `i` of `nodes` is sound over the triangles `tris`: a leaf names a
/// triangle whose corners its box holds; an inner node names two later nodes
/// whose boxes its box holds.
pub open spec fn node_sound(nodes: Seq<MeshBVHNode>, tris: Seq<Triangle>, i: int) -> bool {
    let n = nodes[i];
    if n.is_leaf {
        &&& n.triangle_index < tris.len()
        &&& holds_triangle(n.bbox, tris[n.triangle_index as int])
    } else {
        &&& i < n.left < nodes.len()
        &&& i < n.right < nodes.len()
        &&& n.bbox.contains_box(nodes[n.left as int].bbox)
        &&& n.bbox.contains_box(nodes[n.right as int].bbox)
    }
}

impl<M> MeshBVH<M> {
    /// The root is a node, and every node is sound.
    pub open spec fn wf(&self) -> bool {
        &&& self.root < self.nodes@.len()
        &&& forall|i: int| 0 <= i < self.nodes@.len() ==> #[trigger] node_sound(self.nodes@, self.triangles@, i)
    }
}

/// Node `j` of the nodes `l`, which stand from position `base` of the node list,
/// is sound over the triangles `f`, which stand from position `start` of the
/// triangle list.
pub open spec fn segment_node_sound(
    l: Seq<MeshBVHNode>,
    base: int,
    f: Seq<Triangle>,
    start: int,
    j: int,
) -> bool {
    let n = l[j];
    if n.is_leaf {
        &&& start <= n.triangle_index < start + f.len()
        &&& holds_triangle(n.bbox, f[n.triangle_index - start])
    } else {
        &&& base + j < n.left < base + l.len()
        &&& base + j < n.right < base + l.len()
        &&& n.bbox.contains_box(l[n.left - base].bbox)
        &&& n.bbox.contains_box(l[n.right - base].bbox)
    }
}

/// All the nodes `l` are sound (see `segment_node_sound`).
pub open spec fn segment_sound(l: Seq<MeshBVHNode>, base: int, f: Seq<Triangle>, start: int) -> bool {
    forall|j: int| 0 <= j < l.len() ==> #[trigger] segment_node_sound(l, base, f, start, j)
}

/// A sound node of a part of a segment stays sound in the whole segment.
proof fn lemma_segment_node_shift(
    l: Seq<MeshBVHNode>,
    base: int,
    f: Seq<Triangle>,
    start: int,
    l1: Seq<MeshBVHNode>,
    f1: Seq<Triangle>,
    dl: int,
    df: int,
    j: int,
)
    requires
        0 <= dl,
        dl + l1.len() <= l.len(),
        0 <= df,
        df + f1.len() <= f.len(),
        l.subrange(dl, dl + l1.len()) == l1,
        f.subrange(df, df + f1.len()) == f1,
        0 <= j < l1.len(),
        segment_node_sound(l1, base + dl, f1, start + df, j),
    ensures
        segment_node_sound(l, base, f, start, j + dl),
{
    let n = l1[j];
    assert(l[j + dl] == n);
    if n.is_leaf {
        assert(f[n.triangle_index - start] == f1[n.triangle_index - start - df]);
    } else {
        assert(l[n.left - base] == l1[n.left - base - dl]);
        assert(l[n.right - base] == l1[n.right - base - dl]);
    }
}

proof fn lemma_tri_box_holds(s: Seq<Triangle>)
    ensures
        forall|k: int| 0 <= k < s.len() ==> holds_triangle(tri_box(s), #[trigger] s[k]),
    decreases s.len(),
{
    if s.len() > 0 {
        let d = s.drop_last();
        lemma_tri_box_holds(d);
        assert forall|k: int| 0 <= k < s.len() implies holds_triangle(tri_box(s), #[trigger] s[k]) by {
            if k < d.len() {
                assert(s[k] == d[k]);
                assert(holds_triangle(tri_box(d), d[k]));
            }
        }
    }
}

proof fn lemma_tri_box_least(s: Seq<Triangle>, b: AABB)
    requires
        forall|k: int| 0 <= k < s.len() ==> holds_triangle(b, #[trigger] s[k]),
    ensures
        b.contains_box(tri_box(s)),
    decreases s.len(),
{
    if s.len() > 0 {
        let d = s.drop_last();
        assert forall|k: int| 0 <= k < d.len() implies holds_triangle(b, #[trigger] d[k]) by {
            assert(d[k] == s[k]);
        }
        lemma_tri_box_least(d, b);
        assert(holds_triangle(b, s[s.len() - 1]));
    }
}

/// The box of a node of a mesh hierarchy holds every triangle of the range it
/// was built over, and the box of every triangle of a sub-range.
proof fn lemma_tri_box_sub(r: Seq<Triangle>, sub: Seq<Triangle>)
    requires
        forall|k: int| 0 <= k < sub.len() ==> r.contains(#[trigger] sub[k]),
    ensures
        tri_box(r).contains_box(tri_box(sub)),
{
    lemma_tri_box_holds(r);
    assert forall|k: int| 0 <= k < sub.len() implies holds_triangle(tri_box(r), #[trigger] sub[k]) by {
        let j = choose|j: int| 0 <= j < r.len() && r[j] == sub[k];
        assert(holds_triangle(tri_box(r), r[j]));
    }
    lemma_tri_box_least(sub, tri_box(r));
}

proof fn lemma_mesh_nodes_root(r: Seq<Triangle>, start: int, base: int)
    requires
        r.len() >= 1,
    ensures
        mesh_nodes(r, start, base)[0].bbox == tri_box(r),
{
    lemma_mesh_unfold(r, start, base);
}

proof fn lemma_segment_sound(r: Seq<Triangle>, start: int, base: int)
    requires
        r.len() >= 1,
        0 <= start,
        start + r.len() <= usize::MAX,
        0 <= base,
        base + 2 * r.len() <= usize::MAX,
    ensures
        segment_sound(mesh_nodes(r, start, base), base, mesh_order(r), start),
    decreases r.len(),
{
    lemma_mesh_unfold(r, start, base);
    let l = mesh_nodes(r, start, base);
    let f = mesh_order(r);
    if r.len() == 1 {
        lemma_tri_box_holds(r);
        assert(l[0].triangle_index == start);
        assert(f[0] == r[0]);
    } else {
        let axis = split_axis(r);
        let t = sort_by_key(r, axis);
        let m = (r.len() / 2) as int;
        lemma_sort_len(r, axis);
        lemma_sort_contains(r, axis);
        let t1 = t.subrange(0, m);
        let t2 = t.subrange(m, r.len() as int);
        let l1 = mesh_nodes(t1, start, base + 1);
        let l2 = mesh_nodes(t2, start + m, base + 1 + l1.len());
        lemma_mesh_nodes_len(t1, start, base + 1);
        lemma_segment_sound(t1, start, base + 1);
        lemma_segment_sound(t2, start + m, base + 1 + l1.len());
        lemma_mesh_nodes_len(t2, start + m, base + 1 + l1.len());
        lemma_mesh_order_len(t1);
        lemma_mesh_order_len(t2);
        lemma_mesh_nodes_root(t1, start, base + 1);
        lemma_mesh_nodes_root(t2, start + m, base + 1 + l1.len());
        let f1 = mesh_order(t1);
        let f2 = mesh_order(t2);
        assert(l == seq![l[0]] + l1 + l2);
        assert(f == f1 + f2);
        assert forall|k: int| 0 <= k < t1.len() implies r.contains(#[trigger] t1[k]) by {
            assert(t1[k] == t[k]);
        }
        assert forall|k: int| 0 <= k < t2.len() implies r.contains(#[trigger] t2[k]) by {
            assert(t2[k] == t[k + m]);
        }
        lemma_tri_box_sub(r, t1);
        lemma_tri_box_sub(r, t2);
        assert(l.subrange(1, 1 + l1.len() as int) =~= l1);
        assert(l.subrange(1 + l1.len() as int, 1 + l1.len() + l2.len() as int) =~= l2);
        assert(f.subrange(0, f1.len() as int) =~= f1);
        assert(f.subrange(m, m + f2.len()) =~= f2);
        assert forall|j: int| 0 <= j < l.len() implies #[trigger] segment_node_sound(
            l,
            base,
            f,
            start,
            j,
        ) by {
            if j == 0 {
                assert(l[1] == l1[0]);
                assert(l[1 + l1.len() as int] == l2[0]);
            } else if j < 1 + l1.len() {
                assert(segment_node_sound(l1, base + 1, f1, start, j - 1));
                lemma_segment_node_shift(l, base, f, start, l1, f1, 1, 0, j - 1);
            } else {
                assert(segment_node_sound(l2, base + 1 + l1.len(), f2, start + m, j - 1 - l1.len()));
                lemma_segment_node_shift(l, base, f, start, l2, f2, 1 + l1.len() as int, m, j - 1 - l1.len());
            }
        }
    }
}

/// Some leaf of the nodes `l` names the triangle at position `k`.
pub open spec fn names_triangle(l: Seq<MeshBVHNode>, k: int) -> bool {
    exists|j: int| 0 <= j < l.len() && #[trigger] l[j].is_leaf && l[j].triangle_index == k
}

proof fn lemma_segment_covers(r: Seq<Triangle>, start: int, base: int)
    requires
        r.len() >= 1,
        0 <= start,
        start + r.len() <= usize::MAX,
        0 <= base,
        base + 2 * r.len() <= usize::MAX,
    ensures
        forall|k: int|
            start <= k < start + r.len() ==> #[trigger] names_triangle(mesh_nodes(r, start, base), k),
    decreases r.len(),
{
    lemma_mesh_unfold(r, start, base);
    let l = mesh_nodes(r, start, base);
    if r.len() == 1 {
        assert forall|k: int| start <= k < start + r.len() implies #[trigger] names_triangle(l, k) by {
            assert(l[0].is_leaf && l[0].triangle_index == k);
        }
    } else {
        let axis = split_axis(r);
        let t = sort_by_key(r, axis);
        let m = (r.len() / 2) as int;
        lemma_sort_len(r, axis);
        let t1 = t.subrange(0, m);
        let t2 = t.subrange(m, r.len() as int);
        let l1 = mesh_nodes(t1, start, base + 1);
        let l2 = mesh_nodes(t2, start + m, base + 1 + l1.len());
        lemma_mesh_nodes_len(t1, start, base + 1);
        lemma_segment_covers(t1, start, base + 1);
        lemma_segment_covers(t2, start + m, base + 1 + l1.len());
        assert(l == seq![l[0]] + l1 + l2);
        assert forall|k: int| start <= k < start + r.len() implies #[trigger] names_triangle(l, k) by {
            if k < start + m {
                assert(names_triangle(l1, k));
                let j = choose|j: int| 0 <= j < l1.len() && #[trigger] l1[j].is_leaf && l1[j].triangle_index == k;
                assert(l[j + 1] == l1[j]);
            } else {
                assert(names_triangle(l2, k));
                let j = choose|j: int| 0 <= j < l2.len() && #[trigger] l2[j].is_leaf && l2[j].triangle_index == k;
                assert(l[j + 1 + l1.len()] == l2[j]);
            }
        }
    }
}

/// Building the hierarchy only rearranges the triangles.
pub proof fn lemma_mesh_order_permutation(r: Seq<Triangle>)
    ensures
        mesh_order(r).to_multiset() == r.to_multiset(),
    decreases r.len(),
{
    reveal(mesh_order);
    if r.len() > 1 {
        let axis = split_axis(r);
        let t = sort_by_key(r, axis);
        let m = (r.len() / 2) as int;
        lemma_sort_len(r, axis);
        crate::sort::lemma_sort_permutation(r, axis);
        let t1 = t.subrange(0, m);
        let t2 = t.subrange(m, r.len() as int);
        lemma_mesh_order_permutation(t1);
        lemma_mesh_order_permutation(t2);
        vstd::seq_lib::lemma_multiset_commutative(mesh_order(t1), mesh_order(t2));
        vstd::seq_lib::lemma_multiset_commutative(t1, t2);
        assert(t1 + t2 =~= t);
    }
}

/// A mesh built over `n >= 1` triangles holds `2n - 1` nodes, all sound: every
/// node's box holds the boxes of its children, and every leaf's box holds the
/// corners of its triangle; every triangle is named by some leaf; and its
/// triangles are those it was built over.
pub proof fn lemma_built_mesh_sound<M>(bvh: &MeshBVH<M>, s: Seq<Triangle>)
    requires
        bvh.built_from(s),
        1 <= s.len() <= usize::MAX / 2,
    ensures
        bvh.wf(),
        bvh.nodes@.len() == 2 * s.len() - 1,
        bvh.triangles@.to_multiset() == s.to_multiset(),
        forall|k: int| 0 <= k < s.len() ==> #[trigger] names_triangle(bvh.nodes@, k),
{
    lemma_segment_covers(s, 0, 0);
    lemma_segment_sound(s, 0, 0);
    lemma_mesh_nodes_len(s, 0, 0);
    lemma_mesh_order_permutation(s);
    let nodes = bvh.nodes@;
    let tris = bvh.triangles@;
    assert forall|i: int| 0 <= i < nodes.len() implies #[trigger] node_sound(nodes, tris, i) by {
        assert(segment_node_sound(nodes, 0, tris, 0, i));
        let n = nodes[i];
        if !n.is_leaf {
            assert(0 + i < n.left < 0 + nodes.len());
        }
    }
}

} // verus!

verus! {

/// The box of the triangles of two sequences is the join of their boxes.
pub proof fn lemma_tri_box_append(a: Seq<Triangle>, b: Seq<Triangle>)
    ensures
        tri_box(a + b) == tri_box(a).union(tri_box(b)),
    decreases b.len(),
{
    if b.len() == 0 {
        assert(a + b =~= a);
    } else {
        let bd = b.drop_last();
        lemma_tri_box_append(a, bd);
        assert((a + b).drop_last() =~= a + bd);
        assert((a + b).last() == b.last());
    }
}

/// The box of a range of triangles is the join of the boxes of its two parts,
/// split at `m`.
pub proof fn lemma_tri_box_split(r: Seq<Triangle>, m: int)
    requires
        0 <= m <= r.len(),
    ensures
        tri_box(r) == tri_box(r.subrange(0, m)).union(tri_box(r.subrange(m, r.len() as int))),
{
    assert(r =~= r.subrange(0, m) + r.subrange(m, r.len() as int));
    lemma_tri_box_append(r.subrange(0, m), r.subrange(m, r.len() as int));
}

/// The box of a range of triangles holds the box of every sub-range.
pub proof fn lemma_tri_box_subrange(r: Seq<Triangle>, i: int, j: int)
    requires
        0 <= i <= j <= r.len(),
    ensures
        tri_box(r).contains_box(tri_box(r.subrange(i, j))),
{
    let sub = r.subrange(i, j);
    assert forall|k: int| 0 <= k < sub.len() implies r.contains(#[trigger] sub[k]) by {
        assert(r[k + i] == sub[k]);
    }
    lemma_tri_box_sub(r, sub);
}

/// Two sequences that hold the same triangles (in any order, as often as they
/// like) have the same box.
pub proof fn lemma_tri_box_same_triangles(a: Seq<Triangle>, b: Seq<Triangle>)
    requires
        forall|k: int| 0 <= k < a.len() ==> b.contains(#[trigger] a[k]),
        forall|k: int| 0 <= k < b.len() ==> a.contains(#[trigger] b[k]),
    ensures
        tri_box(a) == tri_box(b),
{
    lemma_tri_box_sub(a, b);
    lemma_tri_box_sub(b, a);
}

} // verus!

verus! {

/// For the triangles `t` and positions `s <= m <= e` of it: the box of the range
/// `s..e` is the join of the boxes of `s..m` and `m..e`, and it holds the box of
/// every range `s2..e2` within it.
pub proof fn lemma_range_boxes(t: Seq<Triangle>, s: int, m: int, e: int, s2: int, e2: int)
    requires
        0 <= s <= m <= e <= t.len(),
        s <= s2 <= e2 <= e,
    ensures
        tri_box(t.subrange(s, e)) == tri_box(t.subrange(s, m)).union(tri_box(t.subrange(m, e))),
        tri_box(t.subrange(s, e)).contains_box(tri_box(t.subrange(s2, e2))),
{
    let r = t.subrange(s, e);
    lemma_tri_box_split(r, m - s);
    assert(r.subrange(0, m - s) =~= t.subrange(s, m));
    assert(r.subrange(m - s, r.len() as int) =~= t.subrange(m, e));
    lemma_tri_box_subrange(r, s2 - s, e2 - s);
    assert(r.subrange(s2 - s, e2 - s) =~= t.subrange(s2, e2));
}

/// The ranges of triangle positions that the nodes of the hierarchy over `n`
/// triangles standing from position `start` cover, in the order of the nodes:
/// the whole range, then those of the first `n / 2` triangles, then those of
/// the rest.
pub open spec fn mesh_spans(n: nat, start: int) -> Seq<(int, int)>
    decreases n,
{
    if n == 0 {
        Seq::empty()
    } else if n == 1 {
        seq![(start, start + 1)]
    } else {
        let m = n / 2;
        seq![(start, start + n)] + mesh_spans(m, start) + mesh_spans((n - m) as nat, start + m)
    }
}

proof fn lemma_mesh_spans_len(n: nat, start: int)
    ensures
        n >= 1 ==> mesh_spans(n, start).len() == 2 * n - 1,
        n >= 1 ==> mesh_spans(n, start)[0] == (start, start + n),
    decreases n,
{
    if n > 1 {
        let m = n / 2;
        lemma_mesh_spans_len(m, start);
        lemma_mesh_spans_len((n - m) as nat, start + m);
    }
}

/// Node `j` of the nodes `l` (standing from position `base`) is laid out over the
/// range `spans[j] = (s, e)` of the triangles `f` (standing from position `start`):
/// its box is the box of those triangles; it is a leaf exactly when the range
/// holds one triangle, and then names it; otherwise, with `m = (s + e) / 2`, its
/// children are the next node, over `s..m`, and the node `2 * (m - s)` after it,
/// over `m..e`.
pub open spec fn node_laid_out(
    l: Seq<MeshBVHNode>,
    spans: Seq<(int, int)>,
    base: int,
    f: Seq<Triangle>,
    start: int,
    j: int,
) -> bool {
    let (s, e) = spans[j];
    let n = l[j];
    let m = (s + e) / 2;
    &&& start <= s < e <= start + f.len()
    &&& n.bbox == tri_box(f.subrange(s - start, e - start))
    &&& n.is_leaf <==> e - s == 1
    &&& n.is_leaf ==> n.triangle_index == s
    &&& !n.is_leaf ==> {
        &&& n.left == base + j + 1
        &&& n.right == base + j + 2 * (m - s)
        &&& j + 2 * (m - s) < l.len()
        &&& spans[j + 1] == (s, m)
        &&& spans[j + 2 * (m - s)] == (m, e)
    }
}

/// Every node of `l` is laid out as `node_laid_out` says.
pub open spec fn laid_out(
    l: Seq<MeshBVHNode>,
    spans: Seq<(int, int)>,
    base: int,
    f: Seq<Triangle>,
    start: int,
) -> bool {
    &&& l.len() == spans.len()
    &&& forall|j: int| 0 <= j < l.len() ==> #[trigger] node_laid_out(l, spans, base, f, start, j)
}

proof fn lemma_laid_out_shift(
    l: Seq<MeshBVHNode>,
    sp: Seq<(int, int)>,
    base: int,
    f: Seq<Triangle>,
    start: int,
    l1: Seq<MeshBVHNode>,
    sp1: Seq<(int, int)>,
    f1: Seq<Triangle>,
    dl: int,
    df: int,
    j: int,
)
    requires
        0 <= dl,
        dl + l1.len() <= l.len(),
        l1.len() == sp1.len(),
        sp.len() == l.len(),
        0 <= df,
        df + f1.len() <= f.len(),
        l.subrange(dl, dl + l1.len()) == l1,
        sp.subrange(dl, dl + l1.len()) == sp1,
        f.subrange(df, df + f1.len()) == f1,
        0 <= j < l1.len(),
        node_laid_out(l1, sp1, base + dl, f1, start + df, j),
    ensures
        node_laid_out(l, sp, base, f, start, j + dl),
{
    let (s, e) = sp1[j];
    let n = l1[j];
    let m = (s + e) / 2;
    assert(l[j + dl] == n);
    assert(sp[j + dl] == sp1[j]);
    assert(f.subrange(s - start, e - start) =~= f1.subrange(s - start - df, e - start - df));
    if !n.is_leaf {
        assert(sp[j + dl + 1] == sp1[j + 1]);
        assert(sp[j + dl + 2 * (m - s)] == sp1[j + 2 * (m - s)]);
    }
}

/// The nodes of the hierarchy over `r` are laid out over the ranges of
/// `mesh_spans` of the triangles as building leaves them.
#[verifier::rlimit(30)]
pub proof fn lemma_mesh_layout(r: Seq<Triangle>, start: int, base: int)
    requires
        r.len() >= 1,
        0 <= start,
        start + r.len() <= usize::MAX,
        0 <= base,
        base + 2 * r.len() <= usize::MAX,
    ensures
        laid_out(mesh_nodes(r, start, base), mesh_spans(r.len(), start), base, mesh_order(r), start),
    decreases r.len(),
{
    broadcast use vstd::seq_lib::group_to_multiset_ensures;

    lemma_mesh_unfold(r, start, base);
    lemma_mesh_nodes_len(r, start, base);
    lemma_mesh_spans_len(r.len(), start);
    lemma_mesh_order_len(r);
    let l = mesh_nodes(r, start, base);
    let sp = mesh_spans(r.len(), start);
    let f = mesh_order(r);
    let n = r.len();
    // the root covers all of `r`, whose final order holds the same triangles
    lemma_mesh_order_permutation(r);
    assert forall|k: int| 0 <= k < f.len() implies r.contains(#[trigger] f[k]) by {
        assert(f.contains(f[k]));
        assert(f.to_multiset().count(f[k]) > 0);
    }
    assert forall|k: int| 0 <= k < r.len() implies f.contains(#[trigger] r[k]) by {
        assert(r.contains(r[k]));
        assert(r.to_multiset().count(r[k]) > 0);
    }
    lemma_tri_box_same_triangles(r, f);
    assert(f.subrange(0, n as int) =~= f);
    if n == 1 {
        assert(node_laid_out(l, sp, base, f, start, 0));
    } else {
        let axis = split_axis(r);
        let t = sort_by_key(r, axis);
        let m = (n / 2) as int;
        lemma_sort_len(r, axis);
        let t1 = t.subrange(0, m);
        let t2 = t.subrange(m, n as int);
        let l1 = mesh_nodes(t1, start, base + 1);
        let l2 = mesh_nodes(t2, start + m, base + 1 + l1.len());
        let sp1 = mesh_spans(m as nat, start);
        let sp2 = mesh_spans((n - m) as nat, start + m);
        let f1 = mesh_order(t1);
        let f2 = mesh_order(t2);
        lemma_mesh_nodes_len(t1, start, base + 1);
        lemma_mesh_nodes_len(t2, start + m, base + 1 + l1.len());
        lemma_mesh_spans_len(m as nat, start);
        lemma_mesh_spans_len((n - m) as nat, start + m);
        lemma_mesh_order_len(t1);
        lemma_mesh_order_len(t2);
        lemma_mesh_layout(t1, start, base + 1);
        lemma_mesh_layout(t2, start + m, base + 1 + l1.len());
        assert(l == seq![l[0]] + l1 + l2);
        assert(sp == seq![sp[0]] + sp1 + sp2);
        assert(f == f1 + f2);
        assert(l.subrange(1, 1 + l1.len() as int) =~= l1);
        assert(l.subrange(1 + l1.len() as int, 1 + l1.len() + l2.len() as int) =~= l2);
        assert(sp.subrange(1, 1 + l1.len() as int) =~= sp1);
        assert(sp.subrange(1 + l1.len() as int, 1 + l1.len() + l2.len() as int) =~= sp2);
        assert(f.subrange(0, f1.len() as int) =~= f1);
        assert(f.subrange(m, m + f2.len()) =~= f2);
        assert forall|j: int| 0 <= j < l.len() implies #[trigger] node_laid_out(
            l,
            sp,
            base,
            f,
            start,
            j,
        ) by {
            if j == 0 {
                assert(sp[0] == (start, start + n));
                assert(sp[1] == sp1[0]);
                assert(sp[1 + l1.len() as int] == sp2[0]);
                assert((start + start + n) / 2 == start + m);
            } else if j < 1 + l1.len() {
                assert(node_laid_out(l1, sp1, base + 1, f1, start, j - 1));
                lemma_laid_out_shift(l, sp, base, f, start, l1, sp1, f1, 1, 0, j - 1);
            } else {
                assert(node_laid_out(l2, sp2, base + 1 + l1.len(), f2, start + m, j - 1 - l1.len()));
                lemma_laid_out_shift(
                    l,
                    sp,
                    base,
                    f,
                    start,
                    l2,
                    sp2,
                    f2,
                    1 + l1.len() as int,
                    m,
                    j - 1 - l1.len(),
                );
            }
        }
    }
}

/// In a mesh built over `n >= 1` triangles, node `i` covers the range
/// `mesh_spans(n, 0)[i] = (s, e)` of its final triangles: its box is the box of
/// `triangles[s..e]`; it is a leaf exactly when `e - s == 1`, and then names
/// triangle `s`; otherwise, with `m = (s + e) / 2`, its left child is node
/// `i + 1`, over `s..m`, and its right child node `i + 2 * (m - s)`, over `m..e`;
/// and along the widest axis of its box the triangles of `s..m` have centroids
/// at most those of the triangles of `m..e`.
pub proof fn lemma_built_mesh_layout<M>(bvh: &MeshBVH<M>, s: Seq<Triangle>)
    requires
        bvh.built_from(s),
        1 <= s.len() <= usize::MAX / 2,
    ensures
        laid_out(bvh.nodes@, mesh_spans(s.len(), 0), 0, bvh.triangles@, 0),
        mesh_spans(s.len(), 0)[0] == (0int, s.len() as int),
        forall|i: int|
            0 <= i < bvh.nodes@.len() ==> #[trigger] node_split_ordered(
                bvh.nodes@,
                mesh_spans(s.len(), 0),
                bvh.triangles@,
                0,
                i,
            ),
{
    lemma_mesh_layout(s, 0, 0);
    lemma_mesh_spans_len(s.len(), 0);
    lemma_mesh_split_ordered(s, 0, 0);
}

} // verus!

verus! {

/// If node `j` of `l` is an inner node over the range `spans[j] = (s, e)` of the
/// triangles `f` (standing from position `start`), then along the widest axis
/// of its box every triangle of its left half `s..m` has a centroid key at most
/// that of every triangle of its right half `m..e`.
pub open spec fn node_split_ordered(
    l: Seq<MeshBVHNode>,
    spans: Seq<(int, int)>,
    f: Seq<Triangle>,
    start: int,
    j: int,
) -> bool {
    let (s, e) = spans[j];
    let m = (s + e) / 2;
    let axis = l[j].bbox.spec_widest_axis();
    !l[j].is_leaf ==> forall|a: int, b: int|
        s - start <= a < m - start && m - start <= b < e - start ==> #[trigger] f[a].key(axis)
            <= #[trigger] f[b].key(axis)
}

proof fn lemma_split_ordered_shift(
    l: Seq<MeshBVHNode>,
    sp: Seq<(int, int)>,
    f: Seq<Triangle>,
    start: int,
    l1: Seq<MeshBVHNode>,
    sp1: Seq<(int, int)>,
    f1: Seq<Triangle>,
    dl: int,
    df: int,
    j: int,
)
    requires
        0 <= dl,
        dl + l1.len() <= l.len(),
        l1.len() == sp1.len(),
        sp.len() == l.len(),
        0 <= df,
        df + f1.len() <= f.len(),
        l.subrange(dl, dl + l1.len()) == l1,
        sp.subrange(dl, dl + l1.len()) == sp1,
        f.subrange(df, df + f1.len()) == f1,
        0 <= j < l1.len(),
        start + df <= sp1[j].0,
        sp1[j].0 < sp1[j].1 <= start + df + f1.len(),
        node_split_ordered(l1, sp1, f1, start + df, j),
    ensures
        node_split_ordered(l, sp, f, start, j + dl),
{
    let (s, e) = sp1[j];
    let m = (s + e) / 2;
    assert(l[j + dl] == l1[j]);
    assert(sp[j + dl] == sp1[j]);
    let axis = l1[j].bbox.spec_widest_axis();
    if !l1[j].is_leaf {
        assert forall|a: int, b: int|
            s - start <= a < m - start && m - start <= b < e - start implies #[trigger] f[a].key(
            axis,
        ) <= #[trigger] f[b].key(axis) by {
            assert(f[a] == f1[a - df]);
            assert(f[b] == f1[b - df]);
            assert(f1[a - df].key(axis) <= f1[b - df].key(axis));
        }
    }
}

proof fn lemma_mesh_order_contains(r: Seq<Triangle>)
    ensures
        forall|k: int| 0 <= k < mesh_order(r).len() ==> r.contains(#[trigger] mesh_order(r)[k]),
{
    broadcast use vstd::seq_lib::group_to_multiset_ensures;

    lemma_mesh_order_permutation(r);
    let f = mesh_order(r);
    assert forall|k: int| 0 <= k < f.len() implies r.contains(#[trigger] f[k]) by {
        assert(f.contains(f[k]));
        assert(f.to_multiset().count(f[k]) > 0);
    }
}

/// Every inner node of the hierarchy over `r` splits its triangles along the
/// widest axis of its box, as `node_split_ordered` says.
#[verifier::rlimit(30)]
pub proof fn lemma_mesh_split_ordered(r: Seq<Triangle>, start: int, base: int)
    requires
        r.len() >= 1,
        0 <= start,
        start + r.len() <= usize::MAX,
        0 <= base,
        base + 2 * r.len() <= usize::MAX,
    ensures
        forall|j: int|
            0 <= j < mesh_nodes(r, start, base).len() ==> #[trigger] node_split_ordered(
                mesh_nodes(r, start, base),
                mesh_spans(r.len(), start),
                mesh_order(r),
                start,
                j,
            ),
    decreases r.len(),
{
    lemma_mesh_unfold(r, start, base);
    lemma_mesh_nodes_len(r, start, base);
    lemma_mesh_spans_len(r.len(), start);
    lemma_mesh_order_len(r);
    let l = mesh_nodes(r, start, base);
    let sp = mesh_spans(r.len(), start);
    let f = mesh_order(r);
    let n = r.len();
    if n == 1 {
        assert(node_split_ordered(l, sp, f, start, 0));
    } else {
        let axis = split_axis(r);
        let t = sort_by_key(r, axis);
        let m = (n / 2) as int;
        lemma_sort_len(r, axis);
        crate::sort::lemma_sort_sorted(r, axis);
        let t1 = t.subrange(0, m);
        let t2 = t.subrange(m, n as int);
        let l1 = mesh_nodes(t1, start, base + 1);
        let l2 = mesh_nodes(t2, start + m, base + 1 + l1.len());
        let sp1 = mesh_spans(m as nat, start);
        let sp2 = mesh_spans((n - m) as nat, start + m);
        let f1 = mesh_order(t1);
        let f2 = mesh_order(t2);
        lemma_mesh_nodes_len(t1, start, base + 1);
        lemma_mesh_nodes_len(t2, start + m, base + 1 + l1.len());
        lemma_mesh_spans_len(m as nat, start);
        lemma_mesh_spans_len((n - m) as nat, start + m);
        lemma_mesh_order_len(t1);
        lemma_mesh_order_len(t2);
        lemma_mesh_order_contains(t1);
        lemma_mesh_order_contains(t2);
        lemma_mesh_layout(t1, start, base + 1);
        lemma_mesh_layout(t2, start + m, base + 1 + l1.len());
        lemma_mesh_split_ordered(t1, start, base + 1);
        lemma_mesh_split_ordered(t2, start + m, base + 1 + l1.len());
        assert(l == seq![l[0]] + l1 + l2);
        assert(sp == seq![sp[0]] + sp1 + sp2);
        assert(f == f1 + f2);
        assert(l.subrange(1, 1 + l1.len() as int) =~= l1);
        assert(l.subrange(1 + l1.len() as int, 1 + l1.len() + l2.len() as int) =~= l2);
        assert(sp.subrange(1, 1 + l1.len() as int) =~= sp1);
        assert(sp.subrange(1 + l1.len() as int, 1 + l1.len() + l2.len() as int) =~= sp2);
        assert(f.subrange(0, f1.len() as int) =~= f1);
        assert(f.subrange(m, m + f2.len()) =~= f2);
        assert forall|j: int| 0 <= j < l.len() implies #[trigger] node_split_ordered(
            l,
            sp,
            f,
            start,
            j,
        ) by {
            if j == 0 {
                assert(sp[0] == (start, start + n));
                assert((start + start + n) / 2 == start + m);
                assert(l[0].bbox == tri_box(r));
                assert forall|a: int, b: int| 0 <= a < m && m <= b < n implies #[trigger] f[a].key(
                    axis,
                ) <= #[trigger] f[b].key(axis) by {
                    assert(f[a] == f1[a]);
                    assert(f[b] == f2[b - m]);
                    assert(t1.contains(f1[a]));
                    assert(t2.contains(f2[b - m]));
                    let x = choose|x: int| 0 <= x < t1.len() && t1[x] == f1[a];
                    let y = choose|y: int| 0 <= y < t2.len() && t2[y] == f2[b - m];
                    assert(t[x] == f1[a]);
                    assert(t[y + m] == f2[b - m]);
                    assert(t[x].key(axis) <= t[y + m].key(axis));
                }
            } else if j < 1 + l1.len() {
                assert(node_laid_out(l1, sp1, base + 1, f1, start, j - 1));
                assert(node_split_ordered(l1, sp1, f1, start, j - 1));
                lemma_split_ordered_shift(l, sp, f, start, l1, sp1, f1, 1, 0, j - 1);
            } else {
                assert(node_laid_out(l2, sp2, base + 1 + l1.len(), f2, start + m, j - 1 - l1.len()));
                assert(node_split_ordered(l2, sp2, f2, start + m, j - 1 - l1.len()));
                lemma_split_ordered_shift(
                    l,
                    sp,
                    f,
                    start,
                    l2,
                    sp2,
                    f2,
                    1 + l1.len() as int,
                    m,
                    j - 1 - l1.len(),
                );
            }
        }
    }
}

} // verus!

verus! {

proof fn lemma_perpendicular(ax: int, ay: int, az: int, bx: int, by: int, bz: int)
    ensures
        (ay * bz - az * by) * ax + (az * bx - ax * bz) * ay + (ax * by - ay * bx) * az == 0,
        (ay * bz - az * by) * bx + (az * bx - ax * bz) * by + (ax * by - ay * bx) * bz == 0,
{
    assert((ay * bz - az * by) * ax + (az * bx - ax * bz) * ay + (ax * by - ay * bx) * az == 0)
        by (nonlinear_arith);
    assert((ay * bz - az * by) * bx + (az * bx - ax * bz) * by + (ax * by - ay * bx) * bz == 0)
        by (nonlinear_arith);
}

/// A triangle's edges run from its first corner to the other two, and its
/// normal is their cross product `e01 × e02`: perpendicular to both edges.
pub proof fn lemma_triangle_edges_normal(v0: Vec3, v1: Vec3, v2: Vec3)
    ensures
        ({
            let t = spec_triangle(v0, v1, v2);
            let (ax, ay, az) = (v1.x - v0.x, v1.y - v0.y, v1.z - v0.z);
            let (bx, by, bz) = (v2.x - v0.x, v2.y - v0.y, v2.z - v0.z);
            &&& t.v0 == v0 && t.v1 == v1 && t.v2 == v2
            &&& t.e01.x == ax && t.e01.y == ay && t.e01.z == az
            &&& t.e02.x == bx && t.e02.y == by && t.e02.z == bz
            &&& t.normal.x == ay * bz - az * by
            &&& t.normal.y == az * bx - ax * bz
            &&& t.normal.z == ax * by - ay * bx
            &&& t.normal.x * t.e01.x + t.normal.y * t.e01.y + t.normal.z * t.e01.z == 0
            &&& t.normal.x * t.e02.x + t.normal.y * t.e02.y + t.normal.z * t.e02.z == 0
        }),
{
    let t = spec_triangle(v0, v1, v2);
    let (a, b) = (t.e01, t.e02);
    assert(a.bounded() && b.bounded());
    crate::vec3::lemma_edge_product(a.y, b.z);
    crate::vec3::lemma_edge_product(a.z, b.y);
    crate::vec3::lemma_edge_product(a.z, b.x);
    crate::vec3::lemma_edge_product(a.x, b.z);
    crate::vec3::lemma_edge_product(a.x, b.y);
    crate::vec3::lemma_edge_product(a.y, b.x);
    lemma_perpendicular(
        a.x as int,
        a.y as int,
        a.z as int,
        b.x as int,
        b.y as int,
        b.z as int,
    );
}

/// A triangle is ordered along an axis by the sum of its three corners'
/// coordinates on that axis (three times its centroid).
pub proof fn lemma_triangle_key(t: Triangle)
    ensures
        t.key(0) == t.v0.x + t.v1.x + t.v2.x,
        t.key(1) == t.v0.y + t.v1.y + t.v2.y,
        t.key(2) == t.v0.z + t.v1.z + t.v2.z,
{
}

} // verus!

verus! {

/// In a mesh built over two or more triangles, the root splits them along the
/// widest axis of its box: each triangle of the first half has a sum of corner
/// coordinates on that axis at most that of each triangle of the second half.
pub proof fn lemma_built_mesh_root_split<M>(bvh: &MeshBVH<M>, s: Seq<Triangle>)
    requires
        bvh.built_from(s),
        2 <= s.len() <= usize::MAX / 2,
    ensures
        forall|a: int, b: int|
            0 <= a < s.len() / 2 <= b < s.len() ==> {
                let (ta, tb) = (#[trigger] bvh.triangles@[a], #[trigger] bvh.triangles@[b]);
                let axis = bvh.nodes@[0].bbox.spec_widest_axis();
                &&& axis == 0 ==> ta.v0.x + ta.v1.x + ta.v2.x <= tb.v0.x + tb.v1.x + tb.v2.x
                &&& axis == 1 ==> ta.v0.y + ta.v1.y + ta.v2.y <= tb.v0.y + tb.v1.y + tb.v2.y
                &&& axis == 2 ==> ta.v0.z + ta.v1.z + ta.v2.z <= tb.v0.z + tb.v1.z + tb.v2.z
            },
{
    lemma_built_mesh_layout(bvh, s);
    lemma_mesh_nodes_len(s, 0, 0);
    let sp = mesh_spans(s.len(), 0);
    assert(node_laid_out(bvh.nodes@, sp, 0, bvh.triangles@, 0, 0));
    assert(node_split_ordered(bvh.nodes@, sp, bvh.triangles@, 0, 0));
    let axis = bvh.nodes@[0].bbox.spec_widest_axis();
    assert forall|a: int, b: int| 0 <= a < s.len() / 2 <= b < s.len() implies {
        let (ta, tb) = (#[trigger] bvh.triangles@[a], #[trigger] bvh.triangles@[b]);
        &&& axis == 0 ==> ta.v0.x + ta.v1.x + ta.v2.x <= tb.v0.x + tb.v1.x + tb.v2.x
        &&& axis == 1 ==> ta.v0.y + ta.v1.y + ta.v2.y <= tb.v0.y + tb.v1.y + tb.v2.y
        &&& axis == 2 ==> ta.v0.z + ta.v1.z + ta.v2.z <= tb.v0.z + tb.v1.z + tb.v2.z
    } by {
        assert(bvh.triangles@[a].key(axis) <= bvh.triangles@[b].key(axis));
    }
}

/// The point `c + (sx * h, sy * h, sz * h)`.
pub open spec fn signed_corner(c: Vec3, h: int, sx: int, sy: int, sz: int) -> Vec3 {
    Vec3 { x: (c.x + sx * h) as i32, y: (c.y + sy * h) as i32, z: (c.z + sz * h) as i32 }
}

/// The point `p` is a corner of some triangle of `ts`.
pub open spec fn corner_reached(ts: Seq<Triangle>, p: Vec3) -> bool {
    exists|k: int|
        0 <= k < ts.len() && {
            let t = #[trigger] ts[k];
            t.v0 == p || t.v1 == p || t.v2 == p
        }
}

/// The cube around `c` with half edge `h` is made of triangles whose corners
/// are the points `c + (±h, ±h, ±h)`: each of those eight points is a corner of
/// some triangle, and each triangle lies in one face, its three corners sharing
/// the coordinate `c ± h` on one axis.
pub proof fn lemma_cube_triangles(c: Vec3, half: i32)
    requires
        cube_fits(c.x, half),
        cube_fits(c.y, half),
        cube_fits(c.z, half),
    ensures
        cube_triangles(c, half as int).len() == 12,
        forall|k: int|
            0 <= k < 12 ==> {
                let t = #[trigger] cube_triangles(c, half as int)[k];
                let h = half as int;
                &&& t.v0.x == c.x - h || t.v0.x == c.x + h
                &&& t.v0.y == c.y - h || t.v0.y == c.y + h
                &&& t.v0.z == c.z - h || t.v0.z == c.z + h
                &&& t.v1.x == c.x - h || t.v1.x == c.x + h
                &&& t.v1.y == c.y - h || t.v1.y == c.y + h
                &&& t.v1.z == c.z - h || t.v1.z == c.z + h
                &&& t.v2.x == c.x - h || t.v2.x == c.x + h
                &&& t.v2.y == c.y - h || t.v2.y == c.y + h
                &&& t.v2.z == c.z - h || t.v2.z == c.z + h
                &&& (t.v0.x == t.v1.x && t.v1.x == t.v2.x) || (t.v0.y == t.v1.y && t.v1.y
                    == t.v2.y) || (t.v0.z == t.v1.z && t.v1.z == t.v2.z)
            },
        forall|sx: int, sy: int, sz: int|
            (sx == -1 || sx == 1) && (sy == -1 || sy == 1) && (sz == -1 || sz == 1)
                ==> corner_reached(
                cube_triangles(c, half as int),
                #[trigger] signed_corner(c, half as int, sx, sy, sz),
            ),
{
    let ts = cube_triangles(c, half as int);
    let h = half as int;
    assert forall|sx: int, sy: int, sz: int|
        (sx == -1 || sx == 1) && (sy == -1 || sy == 1) && (sz == -1 || sz == 1) implies corner_reached(
        ts,
        #[trigger] signed_corner(c, h, sx, sy, sz),
    ) by {
        let p = Vec3 {
            x: (c.x + sx * half) as i32,
            y: (c.y + sy * half) as i32,
            z: (c.z + sz * half) as i32,
        };
        assert(sx * h == if sx == 1 { h } else { -h }) by (nonlinear_arith)
            requires
                sx == -1 || sx == 1,
        ;
        assert(sy * h == if sy == 1 { h } else { -h }) by (nonlinear_arith)
            requires
                sy == -1 || sy == 1,
        ;
        assert(sz * h == if sz == 1 { h } else { -h }) by (nonlinear_arith)
            requires
                sz == -1 || sz == 1,
        ;
        // triangles 0 and 1 reach the corners 0, 1, 2, 3 (low z); triangles 4
        // and 9 reach 5, 4, 7 and 3, 6, 7
        if sz == -1 {
            if sy == -1 {
                if sx == -1 {
                    assert(ts[0].v0 == p);
                } else {
                    assert(ts[0].v1 == p);
                }
            } else if sx == 1 {
                assert(ts[0].v2 == p);
            } else {
                assert(ts[1].v2 == p);
            }
        } else {
            if sy == -1 {
                if sx == 1 {
                    assert(ts[4].v0 == p);
                } else {
                    assert(ts[4].v1 == p);
                }
            } else if sx == 1 {
                assert(ts[9].v1 == p);
            } else {
                assert(ts[9].v2 == p);
            }
        }
    }
}

} // verus!
