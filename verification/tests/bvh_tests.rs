use oxide::aabb::AABB;
use oxide::bvh::{BVHNode, Hittable, Primitive};
use oxide::vec3::Vec3;

fn bx(a: (i32, i32, i32), b: (i32, i32, i32)) -> AABB {
    AABB::new(Vec3::new(a.0, a.1, a.2), Vec3::new(b.0, b.1, b.2))
}

fn prim(id: usize, x: i32) -> Primitive {
    Primitive { id, bbox: bx((x, 0, 0), (x + 1, 1, 1)) }
}

fn object(h: &Hittable) -> Primitive {
    match h {
        Hittable::Object(p) => *p,
        _ => panic!("expected an object"),
    }
}

fn node(h: &Hittable) -> &BVHNode {
    match h {
        Hittable::Node(n) => n,
        _ => panic!("expected a node"),
    }
}

#[test]
fn new_and_empty_have_zero_box() {
    for n in [BVHNode::new(), BVHNode::empty(), BVHNode::default()] {
        assert_eq!(n.bbox, AABB::zero());
        assert_eq!(n.bounding_box(), AABB::zero());
        assert!(matches!(*n.left, Hittable::Empty));
        assert!(matches!(*n.right, Hittable::Empty));
    }
}

#[test]
fn from_children_joins_boxes() {
    let a = prim(0, 2);
    let b = prim(1, -4);
    let n = BVHNode::from_children(Hittable::Object(a), Hittable::Object(b));
    assert_eq!(n.bbox, bx((-4, 0, 0), (3, 1, 1)));
    let m = BVHNode::_new(Hittable::Object(a), Hittable::Node(Box::new(n)));
    assert_eq!(m.bbox, bx((-4, 0, 0), (3, 1, 1)));
}

#[test]
fn from_children_with_empty_joins_zero_box() {
    let a = prim(0, 5);
    let n = BVHNode::from_children(Hittable::Object(a), Hittable::Empty);
    assert_eq!(n.bbox, bx((0, 0, 0), (6, 1, 1)));
}

#[test]
fn hittable_bounding_boxes() {
    let a = prim(3, 7);
    assert_eq!(Hittable::Object(a).bounding_box(), a.bbox);
    assert_eq!(Hittable::Empty.bounding_box(), AABB::zero());
    let n = BVHNode::from_children(Hittable::Object(a), Hittable::Object(a));
    assert_eq!(Hittable::Node(Box::new(n)).bounding_box(), a.bbox);
}

#[test]
fn one_object_on_both_sides() {
    let mut objs = vec![prim(7, 3)];
    let n = BVHNode::of_objects_and_endpoints(&mut objs);
    assert_eq!(object(&n.left), prim(7, 3));
    assert_eq!(object(&n.right), prim(7, 3));
    assert_eq!(n.bbox, prim(7, 3).bbox);
    assert_eq!(objs, vec![prim(7, 3)]);
}

#[test]
fn two_objects_kept_in_order() {
    let mut objs = vec![prim(0, 9), prim(1, 2)];
    let n = BVHNode::of_objects_and_endpoints(&mut objs);
    assert_eq!(object(&n.left).id, 0);
    assert_eq!(object(&n.right).id, 1);
    assert_eq!(n.bbox, bx((2, 0, 0), (10, 1, 1)));
    assert_eq!(objs, vec![prim(0, 9), prim(1, 2)]);
}

#[test]
fn three_objects_sorted_and_split() {
    let mut objs = vec![prim(0, 5), prim(1, 1), prim(2, 3)];
    let n = BVHNode::of_objects_and_endpoints(&mut objs);
    let l = node(&n.left);
    let r = node(&n.right);
    assert_eq!(object(&l.left).id, 1);
    assert_eq!(object(&l.right).id, 1);
    assert_eq!(object(&r.left).id, 2);
    assert_eq!(object(&r.right).id, 0);
    assert_eq!(l.bbox, bx((1, 0, 0), (2, 1, 1)));
    assert_eq!(r.bbox, bx((3, 0, 0), (6, 1, 1)));
    assert_eq!(n.bbox, bx((1, 0, 0), (6, 1, 1)));
    assert_eq!(objs.iter().map(|p| p.id).collect::<Vec<_>>(), vec![1, 2, 0]);
}

#[test]
fn sorts_along_widest_axis() {
    // spread along y: the objects are ordered by their low y corner
    let p = |id: usize, y: i32| Primitive { id, bbox: bx((0, y, 0), (1, y + 1, 1)) };
    let mut objs = vec![p(0, 30), p(1, 10), p(2, 20), p(3, 0)];
    let n = BVHNode::of_objects_and_endpoints(&mut objs);
    assert_eq!(objs.iter().map(|o| o.id).collect::<Vec<_>>(), vec![3, 1, 2, 0]);
    let l = node(&n.left);
    let r = node(&n.right);
    assert_eq!((object(&l.left).id, object(&l.right).id), (3, 1));
    assert_eq!((object(&r.left).id, object(&r.right).id), (2, 0));
    assert_eq!(n.bbox, bx((0, 0, 0), (1, 31, 1)));
}

#[test]
fn equal_keys_keep_their_order() {
    // objects 0, 1 and 2 share their low x corner; the sort is stable
    let p = |id: usize, x: i32, w: i32| Primitive { id, bbox: bx((x, 0, 0), (x + w, 1, 1)) };
    let mut objs = vec![p(0, 4, 1), p(1, 4, 2), p(2, 4, 3), p(3, 1, 1)];
    BVHNode::of_objects_and_endpoints(&mut objs);
    assert_eq!(objs.iter().map(|o| o.id).collect::<Vec<_>>(), vec![3, 0, 1, 2]);
}

#[test]
fn every_object_box_inside_root() {
    let mut objs: Vec<Primitive> = (0..17).map(|i| prim(i, (i as i32 * 37) % 23 - 11)).collect();
    let orig = objs.clone();
    let n = BVHNode::of_objects_and_endpoints(&mut objs);
    for o in &orig {
        assert!(n.bbox.min.x <= o.bbox.min.x && o.bbox.max.x <= n.bbox.max.x);
        assert!(n.bbox.min.y <= o.bbox.min.y && o.bbox.max.y <= n.bbox.max.y);
    }
    let mut ids: Vec<usize> = objs.iter().map(|o| o.id).collect();
    ids.sort();
    assert_eq!(ids, (0..17).collect::<Vec<_>>());
}

fn leaves(h: &Hittable, out: &mut Vec<Primitive>) {
    match h {
        Hittable::Empty => {}
        Hittable::Object(p) => out.push(*p),
        Hittable::Node(n) => {
            leaves(&n.left, out);
            leaves(&n.right, out);
        }
    }
}

#[test]
fn root_box_is_tight_and_split_is_ordered() {
    let p = |id: usize, x: i32, y: i32| Primitive { id, bbox: bx((x, y, 0), (x + 2, y + 1, 1)) };
    let mut objs: Vec<Primitive> = (0..9).map(|i| p(i, (i as i32 * 5) % 9 + 1, (i as i32 * 4) % 7 + 1)).collect();
    let orig = objs.clone();
    let n = BVHNode::of_objects_and_endpoints(&mut objs);
    let min_x = orig.iter().map(|o| o.bbox.min.x).min().unwrap();
    let max_x = orig.iter().map(|o| o.bbox.max.x).max().unwrap();
    let min_y = orig.iter().map(|o| o.bbox.min.y).min().unwrap();
    let max_y = orig.iter().map(|o| o.bbox.max.y).max().unwrap();
    assert_eq!(n.bbox, bx((min_x, min_y, 0), (max_x, max_y, 1)));
    // span from the origin: x up to 11, y up to 8, z up to 1: split along x
    let (mut l, mut r) = (vec![], vec![]);
    leaves(&n.left, &mut l);
    leaves(&n.right, &mut r);
    let lmax = l.iter().map(|o| o.bbox.min.x).max().unwrap();
    let rmin = r.iter().map(|o| o.bbox.min.x).min().unwrap();
    assert!(lmax <= rmin);
}
