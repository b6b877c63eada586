use vstd::prelude::*;

use crate::vec3::Vec3;

verus! {

/// The smaller of two coordinates.
pub open spec fn min_i32(a: i32, b: i32) -> i32 {
    if a <= b {
        a
    } else {
        b
    }
}

/// The larger of two coordinates.
pub open spec fn max_i32(a: i32, b: i32) -> i32 {
    if a >= b {
        a
    } else {
        b
    }
}

fn min_coord(a: i32, b: i32) -> (r: i32)
    ensures
        r == min_i32(a, b),
{
    if a <= b {
        a
    } else {
        b
    }
}

fn max_coord(a: i32, b: i32) -> (r: i32)
    ensures
        r == max_i32(a, b),
{
    if a >= b {
        a
    } else {
        b
    }
}

/// Componentwise minimum of two points.
pub open spec fn vec_min(a: Vec3, b: Vec3) -> Vec3 {
    Vec3 { x: min_i32(a.x, b.x), y: min_i32(a.y, b.y), z: min_i32(a.z, b.z) }
}

/// Componentwise maximum of two points.
pub open spec fn vec_max(a: Vec3, b: Vec3) -> Vec3 {
    Vec3 { x: max_i32(a.x, b.x), y: max_i32(a.y, b.y), z: max_i32(a.z, b.z) }
}

/// A projected screen coordinate: whole pixels, before clamping to the screen.
pub type ScreenPoint = (i64, i64);

/// The smallest of the first (`which == 0`) or second coordinates of the
/// projected points; `i64::MAX` (standing for +infinity) when there are none.
pub open spec fn min_projected(s: Seq<Option<ScreenPoint>>, which: int) -> int
    decreases s.len(),
{
    if s.len() == 0 {
        i64::MAX as int
    } else {
        let rest = min_projected(s.drop_last(), which);
        match s.last() {
            Some(p) => {
                let c = if which == 0 {
                    p.0 as int
                } else {
                    p.1 as int
                };
                if c < rest {
                    c
                } else {
                    rest
                }
            },
            None => rest,
        }
    }
}

/// The largest of the first (`which == 0`) or second coordinates of the
/// projected points; `i64::MIN` (standing for -infinity) when there are none.
pub open spec fn max_projected(s: Seq<Option<ScreenPoint>>, which: int) -> int
    decreases s.len(),
{
    if s.len() == 0 {
        i64::MIN as int
    } else {
        let rest = max_projected(s.drop_last(), which);
        match s.last() {
            Some(p) => {
                let c = if which == 0 {
                    p.0 as int
                } else {
                    p.1 as int
                };
                if c > rest {
                    c
                } else {
                    rest
                }
            },
            None => rest,
        }
    }
}

/// The last pixel index of a screen dimension of `n` pixels (0 when `n` is 0).
pub open spec fn last_pixel(n: usize) -> int {
    if n == 0 {
        0
    } else {
        n - 1
    }
}

/// A coordinate clamped to the pixels `0..=n - 1` (0 when `n` is 0).
pub open spec fn clamp_pixel(c: int, n: usize) -> int {
    if c < 0 {
        0
    } else if c > last_pixel(n) {
        last_pixel(n)
    } else {
        c
    }
}

/// Some corner could not be projected onto the screen.
pub open spec fn some_unprojected(s: Seq<Option<ScreenPoint>>) -> bool {
    exists|i: int| 0 <= i < s.len() && s[i] is None
}

/// The pixel rectangle `(min_x, max_x, min_y, max_y)` covered by the projected
/// corners: the whole screen when some corner has no projection.
pub open spec fn spec_screen_rect(s: Seq<Option<ScreenPoint>>, width_px: usize, height_px: usize) -> (
    int,
    int,
    int,
    int,
) {
    if some_unprojected(s) {
        (0, last_pixel(width_px), 0, last_pixel(height_px))
    } else {
        (
            clamp_pixel(min_projected(s, 0), width_px),
            clamp_pixel(max_projected(s, 0), width_px),
            clamp_pixel(min_projected(s, 1), height_px),
            clamp_pixel(max_projected(s, 1), height_px),
        )
    }
}

fn clamp_to_pixels(c: i64, n: usize) -> (r: usize)
    ensures
        r == clamp_pixel(c as int, n),
{
    if c <= 0 || n == 0 {
        0
    } else if c as u64 > (n - 1) as u64 {
        n - 1
    } else {
        c as usize
    }
}

/// An axis-aligned bounding box, given by its two extreme corners.
#[derive(Clone, Copy, Debug, PartialEq, Eq, Structural)]
pub struct AABB {
    pub min: Vec3,
    pub max: Vec3,
}

impl AABB {
    /// The box whose two corners are the origin, which stands for "no box".
    pub open spec fn spec_zero() -> AABB {
        AABB { min: Vec3::spec_zero(), max: Vec3::spec_zero() }
    }

    /// The length of the box along `axis`.
    pub open spec fn extent(self, axis: int) -> int {
        self.max.axis(axis) - self.min.axis(axis)
    }

    /// The axis along which the box is longest: x wins only when it is strictly
    /// longer than both others, and y wins over z only when strictly longer.
    pub open spec fn spec_widest_axis(self) -> int {
        if self.extent(0) > self.extent(1) && self.extent(0) > self.extent(2) {
            0
        } else if self.extent(1) > self.extent(2) {
            1
        } else {
            2
        }
    }

    /// The smallest box that holds both boxes.
    pub open spec fn union(self, other: AABB) -> AABB {
        AABB { min: vec_min(self.min, other.min), max: vec_max(self.max, other.max) }
    }

    /// `inner` lies within `self` along every axis.
    pub open spec fn contains_box(self, inner: AABB) -> bool {
        &&& self.min.x <= inner.min.x && inner.max.x <= self.max.x
        &&& self.min.y <= inner.min.y && inner.max.y <= self.max.y
        &&& self.min.z <= inner.min.z && inner.max.z <= self.max.z
    }

    /// `p` lies within `self` along every axis.
    pub open spec fn contains_point(self, p: Vec3) -> bool {
        &&& self.min.x <= p.x <= self.max.x
        &&& self.min.y <= p.y <= self.max.y
        &&& self.min.z <= p.z <= self.max.z
    }

    /// The eight corners, in the order in which they are projected to the screen.
    pub open spec fn spec_corners(self) -> Seq<Vec3> {
        let (lo, hi) = (self.min, self.max);
        seq![
            Vec3 { x: lo.x, y: lo.y, z: lo.z },
            Vec3 { x: lo.x, y: lo.y, z: hi.z },
            Vec3 { x: lo.x, y: hi.y, z: lo.z },
            Vec3 { x: lo.x, y: hi.y, z: hi.z },
            Vec3 { x: hi.x, y: lo.y, z: lo.z },
            Vec3 { x: hi.x, y: lo.y, z: hi.z },
            Vec3 { x: hi.x, y: hi.y, z: lo.z },
            Vec3 { x: hi.x, y: hi.y, z: hi.z },
        ]
    }

    pub fn new(min: Vec3, max: Vec3) -> (r: AABB)
        ensures
            r == (AABB { min, max }),
    {
        AABB { min, max }
    }

    /// The box with both corners at the origin.
    pub fn zero() -> (r: AABB)
        ensures
            r == AABB::spec_zero(),
    {
        AABB { min: Vec3::zero(), max: Vec3::zero() }
    }

    /// 0, 1 or 2: the axis along which the box is longest (see `spec_widest_axis`).
    pub fn widest_axis(&self) -> (r: usize)
        ensures
            r == self.spec_widest_axis(),
            r < 3,
    {
        let x_extent = self.max.x as i64 - self.min.x as i64;
        let y_extent = self.max.y as i64 - self.min.y as i64;
        let z_extent = self.max.z as i64 - self.min.z as i64;

        if x_extent > y_extent && x_extent > z_extent {
            0
        } else if y_extent > z_extent {
            1
        } else {
            2
        }
    }

    /// The smallest box that holds both `box0` and `box1`.
    pub fn of_boxes(box0: &AABB, box1: &AABB) -> (r: AABB)
        ensures
            r == box0.union(*box1),
    {
        let small = Vec3::new(
            min_coord(box0.min.x, box1.min.x),
            min_coord(box0.min.y, box1.min.y),
            min_coord(box0.min.z, box1.min.z),
        );
        let big = Vec3::new(
            max_coord(box0.max.x, box1.max.x),
            max_coord(box0.max.y, box1.max.y),
            max_coord(box0.max.z, box1.max.z),
        );
        AABB { min: small, max: big }
    }

    /// The pixel rectangle `(min_x, max_x, min_y, max_y)` that the box covers on a
    /// screen of `width_px` by `height_px` pixels, given the screen projection of
    /// each of its corners (`None` for a corner that the camera cannot project),
    /// each coordinate rounded down to a whole pixel.
    pub fn screen_space_aabb(projected: &Vec<Option<ScreenPoint>>, width_px: usize, height_px: usize) -> (r: (
        usize,
        usize,
        usize,
        usize,
    ))
        ensures
            (r.0 as int, r.1 as int, r.2 as int, r.3 as int) == spec_screen_rect(
                projected@,
                width_px,
                height_px,
            ),
    {
        let mut min_x: i64 = i64::MAX;
        let mut max_x: i64 = i64::MIN;
        let mut min_y: i64 = i64::MAX;
        let mut max_y: i64 = i64::MIN;
        let n = projected.len();
        let mut i: usize = 0;
        while i < n
            invariant
                n == projected@.len(),
                0 <= i <= n,
                forall|k: int| 0 <= k < i ==> projected@[k] is Some,
                min_x == min_projected(projected@.subrange(0, i as int), 0),
                max_x == max_projected(projected@.subrange(0, i as int), 0),
                min_y == min_projected(projected@.subrange(0, i as int), 1),
                max_y == max_projected(projected@.subrange(0, i as int), 1),
            decreases n - i,
        {
            assert(projected@.subrange(0, i + 1).drop_last() =~= projected@.subrange(0, i as int));
            match projected[i] {
                Some((u, v)) => {
                    if u < min_x {
                        min_x = u;
                    }
                    if u > max_x {
                        max_x = u;
                    }
                    if v < min_y {
                        min_y = v;
                    }
                    if v > max_y {
                        max_y = v;
                    }
                },
                None => {
                    let w = if width_px == 0 {
                        0
                    } else {
                        width_px - 1
                    };
                    let h = if height_px == 0 {
                        0
                    } else {
                        height_px - 1
                    };
                    return (0, w, 0, h);
                },
            }
            i = i + 1;
        }
        assert(projected@.subrange(0, n as int) =~= projected@);
        (
            clamp_to_pixels(min_x, width_px),
            clamp_to_pixels(max_x, width_px),
            clamp_to_pixels(min_y, height_px),
            clamp_to_pixels(max_y, height_px),
        )
    }

    /// The eight corners of the box (see `spec_corners`).
    pub fn corners(&self) -> (r: Vec<Vec3>)
        ensures
            r@ == self.spec_corners(),
    {
        let lo = self.min;
        let hi = self.max;
        let r = vec![
            Vec3::new(lo.x, lo.y, lo.z),
            Vec3::new(lo.x, lo.y, hi.z),
            Vec3::new(lo.x, hi.y, lo.z),
            Vec3::new(lo.x, hi.y, hi.z),
            Vec3::new(hi.x, lo.y, lo.z),
            Vec3::new(hi.x, lo.y, hi.z),
            Vec3::new(hi.x, hi.y, lo.z),
            Vec3::new(hi.x, hi.y, hi.z),
        ];
        assert(r@ =~= self.spec_corners());
        r
    }
}

} // verus!

verus! {

/// Joining two boxes does not depend on their order.
pub proof fn lemma_union_commutative(a: AABB, b: AABB)
    ensures
        a.union(b) == b.union(a),
{
}

/// Joining boxes is associative: `(a ∪ b) ∪ c == a ∪ (b ∪ c)`.
pub proof fn lemma_union_associative(a: AABB, b: AABB, c: AABB)
    ensures
        a.union(b).union(c) == a.union(b.union(c)),
{
}

/// Joining a box with itself gives the box back.
pub proof fn lemma_union_idempotent(a: AABB)
    ensures
        a.union(a) == a,
{
}

/// The joined box holds each of the two boxes.
pub proof fn lemma_union_contains(a: AABB, b: AABB)
    ensures
        a.union(b).contains_box(a),
        a.union(b).contains_box(b),
{
}

/// The joined box is the smallest box that holds both boxes: any box that holds
/// `a` and `b` holds their union.
pub proof fn lemma_union_least(a: AABB, b: AABB, c: AABB)
    requires
        c.contains_box(a),
        c.contains_box(b),
    ensures
        c.contains_box(a.union(b)),
{
}

/// Containment of boxes is transitive.
pub proof fn lemma_contains_transitive(a: AABB, b: AABB, c: AABB)
    requires
        a.contains_box(b),
        b.contains_box(c),
    ensures
        a.contains_box(c),
{
}

/// The widest axis is one of the three axes, and no axis is longer than it.
pub proof fn lemma_widest_axis_is_longest(b: AABB)
    ensures
        0 <= b.spec_widest_axis() < 3,
        forall|a: int| 0 <= a < 3 ==> #[trigger] b.extent(a) <= b.extent(b.spec_widest_axis()),
{
}

} // verus!

verus! {

proof fn lemma_min_projected_attained(s: Seq<Option<ScreenPoint>>, which: int)
    requires
        forall|k: int| 0 <= k < s.len() ==> s[k] is Some,
    ensures
        forall|k: int|
            0 <= k < s.len() ==> min_projected(s, which) <= (if which == 0 {
                (#[trigger] s[k]).unwrap().0 as int
            } else {
                s[k].unwrap().1 as int
            }) <= max_projected(s, which),
        s.len() > 0 ==> exists|k: int|
            0 <= k < s.len() && min_projected(s, which) == (if which == 0 {
                (#[trigger] s[k]).unwrap().0 as int
            } else {
                s[k].unwrap().1 as int
            }),
        s.len() > 0 ==> exists|k: int|
            0 <= k < s.len() && max_projected(s, which) == (if which == 0 {
                (#[trigger] s[k]).unwrap().0 as int
            } else {
                s[k].unwrap().1 as int
            }),
    decreases s.len(),
{
    if s.len() > 0 {
        let d = s.drop_last();
        lemma_min_projected_attained(d, which);
        let n = s.len() - 1;
        assert forall|k: int| 0 <= k < s.len() implies min_projected(s, which) <= (if which == 0 {
            (#[trigger] s[k]).unwrap().0 as int
        } else {
            s[k].unwrap().1 as int
        }) <= max_projected(s, which) by {
            if k < n {
                assert(s[k] == d[k]);
            }
        }
        if d.len() > 0 {
            let a = choose|k: int|
                0 <= k < d.len() && min_projected(d, which) == (if which == 0 {
                    (#[trigger] d[k]).unwrap().0 as int
                } else {
                    d[k].unwrap().1 as int
                });
            let b = choose|k: int|
                0 <= k < d.len() && max_projected(d, which) == (if which == 0 {
                    (#[trigger] d[k]).unwrap().0 as int
                } else {
                    d[k].unwrap().1 as int
                });
            assert(s[a] == d[a]);
            assert(s[b] == d[b]);
            assert(s[n] == s.last());
        } else {
            assert(s[0] == s.last());
        }
    }
}

/// `r` is the coordinate `c` moved onto the pixels `0..n` (0 when `n` is 0).
pub open spec fn moved_on_screen(c: int, n: usize, r: int) -> bool {
    if n == 0 || c <= 0 {
        r == 0
    } else if c >= n - 1 {
        r == n - 1
    } else {
        r == c
    }
}

/// The pixel rectangle of a box lies on the screen: its x coordinates are
/// pixels of a row `0..width_px` and its y coordinates pixels of a column
/// `0..height_px` (both 0 when that dimension is empty). When some corner has
/// no projection it is the whole screen. When every corner projects, the
/// rectangle is ordered (`min <= max`), and it is the smallest on-screen
/// rectangle that holds every corner clamped to the screen: every corner lies
/// within it, and each of its four edges is reached by some corner or by the
/// screen's border.
pub proof fn lemma_screen_rect_on_screen(s: Seq<Option<ScreenPoint>>, width_px: usize, height_px: usize)
    ensures
        ({
            let r = spec_screen_rect(s, width_px, height_px);
            &&& 0 <= r.0 && 0 <= r.1 && 0 <= r.2 && 0 <= r.3
            &&& width_px == 0 ==> r.0 == 0 && r.1 == 0
            &&& width_px > 0 ==> r.0 < width_px && r.1 < width_px
            &&& height_px == 0 ==> r.2 == 0 && r.3 == 0
            &&& height_px > 0 ==> r.2 < height_px && r.3 < height_px
            &&& (exists|k: int| 0 <= k < s.len() && #[trigger] s[k] is None) ==> r == (
                0int,
                if width_px == 0 {
                    0int
                } else {
                    width_px - 1
                },
                0int,
                if height_px == 0 {
                    0int
                } else {
                    height_px - 1
                },
            )
            &&& (s.len() > 0 && forall|k: int| 0 <= k < s.len() ==> #[trigger] s[k] is Some) ==> {
                &&& r.0 <= r.1 && r.2 <= r.3
                &&& forall|k: int|
                    0 <= k < s.len() ==> {
                        let (u, v) = (#[trigger] s[k])->0;
                        &&& (0 <= u < width_px ==> r.0 <= u <= r.1)
                        &&& (0 <= v < height_px ==> r.2 <= v <= r.3)
                    }
                &&& exists|k: int|
                    0 <= k < s.len() && moved_on_screen(
                        (#[trigger] s[k]).unwrap().0 as int,
                        width_px,
                        r.0,
                    )
                &&& exists|k: int|
                    0 <= k < s.len() && moved_on_screen(
                        (#[trigger] s[k]).unwrap().0 as int,
                        width_px,
                        r.1,
                    )
                &&& exists|k: int|
                    0 <= k < s.len() && moved_on_screen(
                        (#[trigger] s[k]).unwrap().1 as int,
                        height_px,
                        r.2,
                    )
                &&& exists|k: int|
                    0 <= k < s.len() && moved_on_screen(
                        (#[trigger] s[k]).unwrap().1 as int,
                        height_px,
                        r.3,
                    )
            }
        }),
{
    if forall|k: int| 0 <= k < s.len() ==> #[trigger] s[k] is Some {
        assert(!some_unprojected(s));
        lemma_min_projected_attained(s, 0);
        lemma_min_projected_attained(s, 1);
        if s.len() > 0 {
            assert(s[0] is Some);
            let r = spec_screen_rect(s, width_px, height_px);
            let a = choose|k: int|
                0 <= k < s.len() && min_projected(s, 0) == (if 0int == 0 {
                    (#[trigger] s[k]).unwrap().0 as int
                } else {
                    s[k].unwrap().1 as int
                });
            let b = choose|k: int|
                0 <= k < s.len() && max_projected(s, 0) == (if 0int == 0 {
                    (#[trigger] s[k]).unwrap().0 as int
                } else {
                    s[k].unwrap().1 as int
                });
            let c = choose|k: int|
                0 <= k < s.len() && min_projected(s, 1) == (if 1int == 0 {
                    (#[trigger] s[k]).unwrap().0 as int
                } else {
                    s[k].unwrap().1 as int
                });
            let d = choose|k: int|
                0 <= k < s.len() && max_projected(s, 1) == (if 1int == 0 {
                    (#[trigger] s[k]).unwrap().0 as int
                } else {
                    s[k].unwrap().1 as int
                });
            assert(moved_on_screen(s[a].unwrap().0 as int, width_px, r.0));
            assert(moved_on_screen(s[b].unwrap().0 as int, width_px, r.1));
            assert(moved_on_screen(s[c].unwrap().1 as int, height_px, r.2));
            assert(moved_on_screen(s[d].unwrap().1 as int, height_px, r.3));
        }
    } else {
        let k = choose|k: int| 0 <= k < s.len() && !(#[trigger] s[k] is Some);
        assert(s[k] is None);
        assert(some_unprojected(s));
    }
}

} // verus!
