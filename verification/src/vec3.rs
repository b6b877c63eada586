use vstd::prelude::*;

verus! {

/// A point in scene space. Coordinates are fixed-point integers.
#[derive(Clone, Copy, Debug, PartialEq, Eq, Structural)]
pub struct Vec3 {
    pub x: i32,
    pub y: i32,
    pub z: i32,
}

/// The difference of two points: each coordinate fits in an `i64`.
#[derive(Clone, Copy, Debug, PartialEq, Eq, Structural)]
pub struct Edge3 {
    pub x: i64,
    pub y: i64,
    pub z: i64,
}

/// The cross product of two edges: each coordinate fits in an `i128`.
#[derive(Clone, Copy, Debug, PartialEq, Eq, Structural)]
pub struct Normal3 {
    pub x: i128,
    pub y: i128,
    pub z: i128,
}

impl Vec3 {
    /// The coordinate of the point along `axis` (0 is x, 1 is y, anything else z).
    pub open spec fn axis(self, axis: int) -> int {
        if axis == 0 {
            self.x as int
        } else if axis == 1 {
            self.y as int
        } else {
            self.z as int
        }
    }

    pub open spec fn spec_zero() -> Vec3 {
        Vec3 { x: 0, y: 0, z: 0 }
    }

    pub fn new(x: i32, y: i32, z: i32) -> (r: Vec3)
        ensures
            r == (Vec3 { x, y, z }),
    {
        Vec3 { x, y, z }
    }

    /// The origin.
    pub fn zero() -> (r: Vec3)
        ensures
            r == Vec3::spec_zero(),
    {
        Vec3 { x: 0, y: 0, z: 0 }
    }

    /// The coordinate along `axis`, which is 0, 1 or 2.
    pub fn get(&self, axis: usize) -> (r: i32)
        requires
            axis < 3,
        ensures
            r == self.axis(axis as int),
    {
        if axis == 0 {
            self.x
        } else if axis == 1 {
            self.y
        } else {
            self.z
        }
    }

    /// `self - other`, exact.
    pub open spec fn spec_sub(self, other: Vec3) -> Edge3 {
        Edge3 {
            x: (self.x - other.x) as i64,
            y: (self.y - other.y) as i64,
            z: (self.z - other.z) as i64,
        }
    }

    /// `self - other`, exact.
    pub fn sub(&self, other: &Vec3) -> (r: Edge3)
        ensures
            r == self.spec_sub(*other),
            r.bounded(),
            r.x == self.x - other.x,
            r.y == self.y - other.y,
            r.z == self.z - other.z,
    {
        Edge3 {
            x: self.x as i64 - other.x as i64,
            y: self.y as i64 - other.y as i64,
            z: self.z as i64 - other.z as i64,
        }
    }
}

impl Edge3 {
    /// Each coordinate is a difference of two point coordinates.
    pub open spec fn bounded(self) -> bool {
        &&& -0x1_0000_0000 < self.x < 0x1_0000_0000
        &&& -0x1_0000_0000 < self.y < 0x1_0000_0000
        &&& -0x1_0000_0000 < self.z < 0x1_0000_0000
    }

    /// The cross product `self × other`, exact.
    pub open spec fn spec_cross(self, other: Edge3) -> Normal3 {
        Normal3 {
            x: (self.y * other.z - self.z * other.y) as i128,
            y: (self.z * other.x - self.x * other.z) as i128,
            z: (self.x * other.y - self.y * other.x) as i128,
        }
    }

    /// The cross product `self × other`, exact.
    pub fn cross(&self, other: &Edge3) -> (r: Normal3)
        requires
            self.bounded(),
            other.bounded(),
        ensures
            r == self.spec_cross(*other),
            r.x == self.y * other.z - self.z * other.y,
            r.y == self.z * other.x - self.x * other.z,
            r.z == self.x * other.y - self.y * other.x,
    {
        proof {
            lemma_edge_product(self.y, other.z);
            lemma_edge_product(self.z, other.y);
            lemma_edge_product(self.z, other.x);
            lemma_edge_product(self.x, other.z);
            lemma_edge_product(self.x, other.y);
            lemma_edge_product(self.y, other.x);
        }
        let (ax, ay, az) = (self.x as i128, self.y as i128, self.z as i128);
        let (bx, by, bz) = (other.x as i128, other.y as i128, other.z as i128);
        Normal3 { x: ay * bz - az * by, y: az * bx - ax * bz, z: ax * by - ay * bx }
    }
}

pub(crate) proof fn lemma_edge_product(a: i64, b: i64)
    requires
        -0x1_0000_0000 < a < 0x1_0000_0000,
        -0x1_0000_0000 < b < 0x1_0000_0000,
    ensures
        -0x1_0000_0000_0000_0000 < a * b < 0x1_0000_0000_0000_0000,
{
    assert(-0x1_0000_0000_0000_0000 < a * b < 0x1_0000_0000_0000_0000) by (nonlinear_arith)
        requires
            -0x1_0000_0000 < a < 0x1_0000_0000,
            -0x1_0000_0000 < b < 0x1_0000_0000,
    ;
}

} // verus!
