use vstd::prelude::*;

use crate::aabb::AABB;
use crate::vec3::Vec3;

verus! {

/// A sphere, known to the hierarchy by its center and radius, with the material
/// of its surface.
#[derive(Debug)]
pub struct Sphere<M> {
    pub center: Vec3,
    pub radius: i32,
    pub material: M,
}

/// `c + d` lies within the coordinate range.
pub open spec fn fits(c: i32, d: int) -> bool {
    i32::MIN <= c + d <= i32::MAX
}

impl<M> Sphere<M> {
    /// The cube from `center - radius` to `center + radius` on every axis.
    pub open spec fn spec_bbox(self) -> AABB {
        let (c, r) = (self.center, self.radius);
        AABB {
            min: Vec3 { x: (c.x - r) as i32, y: (c.y - r) as i32, z: (c.z - r) as i32 },
            max: Vec3 { x: (c.x + r) as i32, y: (c.y + r) as i32, z: (c.z + r) as i32 },
        }
    }

    /// The box of the sphere; its corners must lie within the coordinate range.
    pub fn bounding_box(&self) -> (r: AABB)
        requires
            fits(self.center.x, -self.radius),
            fits(self.center.y, -self.radius),
            fits(self.center.z, -self.radius),
            fits(self.center.x, self.radius as int),
            fits(self.center.y, self.radius as int),
            fits(self.center.z, self.radius as int),
        ensures
            r == self.spec_bbox(),
    {
        let c = self.center;
        let r = self.radius;
        AABB::new(Vec3::new(c.x - r, c.y - r, c.z - r), Vec3::new(c.x + r, c.y + r, c.z + r))
    }
}

} // verus!
