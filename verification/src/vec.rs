//! Small fixed-dimension vectors for positions and sizes, with exact
//! integer arithmetic.

use vstd::prelude::*;

verus! {

/// A two-dimensional vector.
#[derive(Copy, Clone, Default, Debug, PartialEq, Hash)]
pub struct Vec2<T> {
    pub x: T,
    pub y: T,
}

impl<T> Vec2<T> {
    /// Builds a vector from its components.
    pub fn new(x: T, y: T) -> (r: Self)
        ensures
            r.x == x,
            r.y == y,
    {
        Vec2 { x: x, y: y }
    }
}

impl Vec2<i64> {
    /// The squared length of the vector.
    pub fn sqr_length(&self) -> (r: i64)
        requires
            self.x * self.x + self.y * self.y <= i64::MAX,
        ensures
            r == self.x * self.x + self.y * self.y,
    {
        proof {
            assert(self.x * self.x >= 0) by (nonlinear_arith);
            assert(self.y * self.y >= 0) by (nonlinear_arith);
        }
        self.x * self.x + self.y * self.y
    }
}

impl std::ops::Add<Vec2<i64>> for Vec2<i64> {
    type Output = Vec2<i64>;

    /// Componentwise addition.
    fn add(self, rhs: Vec2<i64>) -> (r: Vec2<i64>) {
        Vec2 { x: self.x + rhs.x, y: self.y + rhs.y }
    }
}

impl vstd::std_specs::ops::AddSpecImpl<Vec2<i64>> for Vec2<i64> {
    open spec fn obeys_add_spec() -> bool {
        true
    }

    open spec fn add_req(self, rhs: Vec2<i64>) -> bool {
        &&& i64::MIN <= self.x + rhs.x <= i64::MAX
        &&& i64::MIN <= self.y + rhs.y <= i64::MAX
    }

    open spec fn add_spec(self, rhs: Vec2<i64>) -> Vec2<i64> {
        Vec2 { x: (self.x + rhs.x) as i64, y: (self.y + rhs.y) as i64 }
    }
}

impl std::ops::Sub<Vec2<i64>> for Vec2<i64> {
    type Output = Vec2<i64>;

    /// Componentwise subtraction.
    fn sub(self, rhs: Vec2<i64>) -> (r: Vec2<i64>) {
        Vec2 { x: self.x - rhs.x, y: self.y - rhs.y }
    }
}

impl vstd::std_specs::ops::SubSpecImpl<Vec2<i64>> for Vec2<i64> {
    open spec fn obeys_sub_spec() -> bool {
        true
    }

    open spec fn sub_req(self, rhs: Vec2<i64>) -> bool {
        &&& i64::MIN <= self.x - rhs.x <= i64::MAX
        &&& i64::MIN <= self.y - rhs.y <= i64::MAX
    }

    open spec fn sub_spec(self, rhs: Vec2<i64>) -> Vec2<i64> {
        Vec2 { x: (self.x - rhs.x) as i64, y: (self.y - rhs.y) as i64 }
    }
}

impl std::ops::Add<i64> for Vec2<i64> {
    type Output = Vec2<i64>;

    /// Adds a scalar to both components.
    fn add(self, rhs: i64) -> (r: Vec2<i64>) {
        Vec2 { x: self.x + rhs, y: self.y + rhs }
    }
}

impl vstd::std_specs::ops::AddSpecImpl<i64> for Vec2<i64> {
    open spec fn obeys_add_spec() -> bool {
        true
    }

    open spec fn add_req(self, rhs: i64) -> bool {
        &&& i64::MIN <= self.x + rhs <= i64::MAX
        &&& i64::MIN <= self.y + rhs <= i64::MAX
    }

    open spec fn add_spec(self, rhs: i64) -> Vec2<i64> {
        Vec2 { x: (self.x + rhs) as i64, y: (self.y + rhs) as i64 }
    }
}

impl std::ops::Sub<i64> for Vec2<i64> {
    type Output = Vec2<i64>;

    /// Subtracts a scalar from both components.
    fn sub(self, rhs: i64) -> (r: Vec2<i64>) {
        Vec2 { x: self.x - rhs, y: self.y - rhs }
    }
}

impl vstd::std_specs::ops::SubSpecImpl<i64> for Vec2<i64> {
    open spec fn obeys_sub_spec() -> bool {
        true
    }

    open spec fn sub_req(self, rhs: i64) -> bool {
        &&& i64::MIN <= self.x - rhs <= i64::MAX
        &&& i64::MIN <= self.y - rhs <= i64::MAX
    }

    open spec fn sub_spec(self, rhs: i64) -> Vec2<i64> {
        Vec2 { x: (self.x - rhs) as i64, y: (self.y - rhs) as i64 }
    }
}

/// A three-dimensional vector.
#[derive(Copy, Clone, Default, Debug, PartialEq, Hash)]
pub struct Vec3<T> {
    pub x: T,
    pub y: T,
    pub z: T,
}

impl<T> Vec3<T> {
    /// Builds a vector from its components.
    pub fn new(x: T, y: T, z: T) -> (r: Self)
        ensures
            r.x == x,
            r.y == y,
            r.z == z,
    {
        Vec3 { x: x, y: y, z: z }
    }
}

impl Vec3<i64> {
    /// The squared length of the vector.
    pub fn sqr_length(&self) -> (r: i64)
        requires
            self.x * self.x + self.y * self.y + self.z * self.z <= i64::MAX,
        ensures
            r == self.x * self.x + self.y * self.y + self.z * self.z,
    {
        proof {
            assert(self.x * self.x >= 0) by (nonlinear_arith);
            assert(self.y * self.y >= 0) by (nonlinear_arith);
            assert(self.z * self.z >= 0) by (nonlinear_arith);
        }
        self.x * self.x + self.y * self.y + self.z * self.z
    }
}

impl std::ops::Add<Vec3<i64>> for Vec3<i64> {
    type Output = Vec3<i64>;

    /// Componentwise addition.
    fn add(self, rhs: Vec3<i64>) -> (r: Vec3<i64>) {
        Vec3 { x: self.x + rhs.x, y: self.y + rhs.y, z: self.z + rhs.z }
    }
}

impl vstd::std_specs::ops::AddSpecImpl<Vec3<i64>> for Vec3<i64> {
    open spec fn obeys_add_spec() -> bool {
        true
    }

    open spec fn add_req(self, rhs: Vec3<i64>) -> bool {
        &&& i64::MIN <= self.x + rhs.x <= i64::MAX
        &&& i64::MIN <= self.y + rhs.y <= i64::MAX
        &&& i64::MIN <= self.z + rhs.z <= i64::MAX
    }

    open spec fn add_spec(self, rhs: Vec3<i64>) -> Vec3<i64> {
        Vec3 { x: (self.x + rhs.x) as i64, y: (self.y + rhs.y) as i64, z: (self.z + rhs.z) as i64 }
    }
}

impl std::ops::Sub<Vec3<i64>> for Vec3<i64> {
    type Output = Vec3<i64>;

    /// Componentwise subtraction.
    fn sub(self, rhs: Vec3<i64>) -> (r: Vec3<i64>) {
        Vec3 { x: self.x - rhs.x, y: self.y - rhs.y, z: self.z - rhs.z }
    }
}

impl vstd::std_specs::ops::SubSpecImpl<Vec3<i64>> for Vec3<i64> {
    open spec fn obeys_sub_spec() -> bool {
        true
    }

    open spec fn sub_req(self, rhs: Vec3<i64>) -> bool {
        &&& i64::MIN <= self.x - rhs.x <= i64::MAX
        &&& i64::MIN <= self.y - rhs.y <= i64::MAX
        &&& i64::MIN <= self.z - rhs.z <= i64::MAX
    }

    open spec fn sub_spec(self, rhs: Vec3<i64>) -> Vec3<i64> {
        Vec3 { x: (self.x - rhs.x) as i64, y: (self.y - rhs.y) as i64, z: (self.z - rhs.z) as i64 }
    }
}

} // verus!
