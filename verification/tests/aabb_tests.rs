use oxide::aabb::AABB;
use oxide::vec3::Vec3;

fn bx(a: (i32, i32, i32), b: (i32, i32, i32)) -> AABB {
    AABB::new(Vec3::new(a.0, a.1, a.2), Vec3::new(b.0, b.1, b.2))
}

#[test]
fn new_keeps_corners() {
    let b = bx((1, 2, 3), (4, 5, 6));
    assert_eq!(b.min, Vec3::new(1, 2, 3));
    assert_eq!(b.max, Vec3::new(4, 5, 6));
}

#[test]
fn widest_axis_picks_longest() {
    assert_eq!(bx((0, 0, 0), (5, 1, 1)).widest_axis(), 0);
    assert_eq!(bx((0, 0, 0), (1, 5, 1)).widest_axis(), 1);
    assert_eq!(bx((0, 0, 0), (1, 1, 5)).widest_axis(), 2);
}

#[test]
fn widest_axis_ties() {
    // x must be strictly longer than both others to win
    assert_eq!(bx((0, 0, 0), (5, 5, 1)).widest_axis(), 1);
    assert_eq!(bx((0, 0, 0), (5, 1, 5)).widest_axis(), 2);
    // y must be strictly longer than z
    assert_eq!(bx((0, 0, 0), (1, 5, 5)).widest_axis(), 2);
    assert_eq!(bx((0, 0, 0), (0, 0, 0)).widest_axis(), 2);
}

#[test]
fn widest_axis_extreme_coordinates() {
    let b = bx((i32::MIN, 0, 0), (i32::MAX, 0, 0));
    assert_eq!(b.widest_axis(), 0);
}

#[test]
fn of_boxes_joins() {
    let a = bx((0, 5, -3), (2, 6, 1));
    let b = bx((1, -1, 0), (4, 3, 7));
    let j = AABB::of_boxes(&a, &b);
    assert_eq!(j, bx((0, -1, -3), (4, 6, 7)));
    assert_eq!(AABB::of_boxes(&b, &a), j);
    assert_eq!(AABB::of_boxes(&a, &a), a);
}

#[test]
fn zero_box() {
    assert_eq!(AABB::zero(), bx((0, 0, 0), (0, 0, 0)));
}

#[test]
fn corners_in_order() {
    let b = bx((0, 1, 2), (10, 11, 12));
    let c = b.corners();
    assert_eq!(c.len(), 8);
    assert_eq!(c[0], Vec3::new(0, 1, 2));
    assert_eq!(c[1], Vec3::new(0, 1, 12));
    assert_eq!(c[2], Vec3::new(0, 11, 2));
    assert_eq!(c[3], Vec3::new(0, 11, 12));
    assert_eq!(c[4], Vec3::new(10, 1, 2));
    assert_eq!(c[5], Vec3::new(10, 1, 12));
    assert_eq!(c[6], Vec3::new(10, 11, 2));
    assert_eq!(c[7], Vec3::new(10, 11, 12));
}

#[test]
fn screen_rect_of_projected_corners() {
    let p = vec![Some((10, 20)), Some((-5, 30)), Some((50, 25)), Some((12, 8))];
    assert_eq!(AABB::screen_space_aabb(&p, 40, 100), (0, 39, 8, 30));
}

#[test]
fn screen_rect_inside_screen() {
    let p = vec![Some((3, 4)), Some((7, 9))];
    assert_eq!(AABB::screen_space_aabb(&p, 100, 100), (3, 7, 4, 9));
}

#[test]
fn screen_rect_unprojectable_corner_covers_screen() {
    let p = vec![Some((3, 4)), None, Some((7, 9))];
    assert_eq!(AABB::screen_space_aabb(&p, 640, 480), (0, 639, 0, 479));
    assert_eq!(AABB::screen_space_aabb(&p, 0, 0), (0, 0, 0, 0));
}

#[test]
fn screen_rect_empty_screen() {
    let p = vec![Some((3, 4)), Some((7, 9))];
    assert_eq!(AABB::screen_space_aabb(&p, 0, 0), (0, 0, 0, 0));
}

#[test]
fn screen_rect_far_outside() {
    let p = vec![Some((i64::MAX, i64::MIN)), Some((i64::MAX, i64::MIN))];
    assert_eq!(AABB::screen_space_aabb(&p, 10, 20), (9, 9, 0, 0));
}

#[test]
fn screen_rect_no_corners() {
    // no corners: the smallest coordinate stands at +infinity, the largest at -infinity
    let p: Vec<Option<(i64, i64)>> = vec![];
    assert_eq!(AABB::screen_space_aabb(&p, 10, 20), (9, 0, 19, 0));
}

#[test]
fn of_boxes_associative_and_least() {
    let a = bx((0, 5, -3), (2, 6, 1));
    let b = bx((1, -1, 0), (4, 3, 7));
    let c = bx((-9, 2, 2), (0, 2, 2));
    let left = AABB::of_boxes(&AABB::of_boxes(&a, &b), &c);
    let right = AABB::of_boxes(&a, &AABB::of_boxes(&b, &c));
    assert_eq!(left, right);
    assert_eq!(left, bx((-9, -1, -3), (4, 6, 7)));
}
