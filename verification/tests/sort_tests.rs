use oxide::aabb::AABB;
use oxide::bvh::Primitive;
use oxide::sort::sort_range;
use oxide::vec3::Vec3;

fn prim(id: usize, x: i32, y: i32) -> Primitive {
    Primitive { id, bbox: AABB::new(Vec3::new(x, y, 0), Vec3::new(x + 1, y + 1, 1)) }
}

#[test]
fn sorts_a_range_stably() {
    let mut v = vec![prim(0, 9, 0), prim(1, 5, 1), prim(2, 3, 0), prim(3, 5, 0), prim(4, 1, 0), prim(5, 0, 0)];
    sort_range(&mut v, 1, 5, 0);
    assert_eq!(v.iter().map(|p| p.id).collect::<Vec<_>>(), vec![0, 4, 2, 1, 3, 5]);
}

#[test]
fn sorts_along_the_given_axis() {
    let mut v = vec![prim(0, 0, 3), prim(1, 1, 2), prim(2, 2, 1)];
    sort_range(&mut v, 0, 3, 1);
    assert_eq!(v.iter().map(|p| p.id).collect::<Vec<_>>(), vec![2, 1, 0]);
    sort_range(&mut v, 0, 3, 0);
    assert_eq!(v.iter().map(|p| p.id).collect::<Vec<_>>(), vec![0, 1, 2]);
}

#[test]
fn empty_range_changes_nothing() {
    let mut v = vec![prim(0, 5, 0), prim(1, 1, 0)];
    sort_range(&mut v, 1, 1, 0);
    assert_eq!(v.iter().map(|p| p.id).collect::<Vec<_>>(), vec![0, 1]);
}

#[test]
fn sorted_range_is_left_alone() {
    let mut v = vec![prim(0, 1, 0), prim(1, 1, 5), prim(2, 2, 0), prim(3, 2, 1), prim(4, 7, 0)];
    sort_range(&mut v, 0, 5, 0);
    assert_eq!(v.iter().map(|p| p.id).collect::<Vec<_>>(), vec![0, 1, 2, 3, 4]);
}

#[test]
fn long_range_sorted_and_permuted() {
    let mut v: Vec<Primitive> = (0..200).map(|i| prim(i, ((i * 7907) % 61) as i32, 0)).collect();
    sort_range(&mut v, 0, 200, 0);
    for w in v.windows(2) {
        let (a, b) = (w[0].bbox.min.x, w[1].bbox.min.x);
        assert!(a < b || (a == b && w[0].id < w[1].id));
    }
    let mut ids: Vec<usize> = v.iter().map(|p| p.id).collect();
    ids.sort();
    assert_eq!(ids, (0..200).collect::<Vec<_>>());
}
