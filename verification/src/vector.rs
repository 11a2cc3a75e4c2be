//! Points and directions of the scene, in whole grid units.

use vstd::prelude::*;
use crate::arith::{floor_sqrt, is_floor_sqrt};

verus! {

/// A point or a direction in space.
#[derive(Clone, Copy, Debug, PartialEq, Eq, Structural)]
pub struct Vec3 {
    pub x: i32,
    pub y: i32,
    pub z: i32,
}

/// The edge of the grid: each coordinate of a point of the scene lies
/// between `-GRID_EDGE` and `GRID_EDGE`, so that the vector from one point to
/// another has coordinates of its own.
pub const GRID_EDGE: i32 = 0x3fff_ffff;

fn squared_gap(a: i32, b: i32) -> (s: u128)
    ensures
        s == (a - b) * (a - b),
        s <= 0xffff_ffff * 0xffff_ffff,
{
    let gap: i64 = a as i64 - b as i64;
    let size: u64 = if gap < 0 { (-gap) as u64 } else { gap as u64 };
    assert(size * size == (a - b) * (a - b)) by (nonlinear_arith)
        requires
            size == a - b || size == -(a - b),
    ;
    assert(size * size <= 0xffff_ffff * 0xffff_ffff) by (nonlinear_arith)
        requires
            size <= 0xffff_ffff,
    ;
    size as u128 * size as u128
}

impl Vec3 {
    /// The dot product, as a mathematical integer.
    pub open spec fn dot(self, other: Vec3) -> int {
        self.x * other.x + self.y * other.y + self.z * other.z
    }

    /// The square of the Euclidean norm.
    pub open spec fn length_squared(self) -> int {
        self.dot(self)
    }

    /// The square of the Euclidean distance between two points.
    pub open spec fn gap_squared(self, other: Vec3) -> int {
        (self.x - other.x) * (self.x - other.x) + (self.y - other.y) * (self.y - other.y) + (self.z
            - other.z) * (self.z - other.z)
    }

    /// The point lies on the grid.
    pub open spec fn on_grid(self) -> bool {
        &&& -GRID_EDGE <= self.x <= GRID_EDGE
        &&& -GRID_EDGE <= self.y <= GRID_EDGE
        &&& -GRID_EDGE <= self.z <= GRID_EDGE
    }

    /// The vector that leads from `from` to `to`, for points on the grid.
    pub open spec fn difference(from: Vec3, to: Vec3) -> Vec3 {
        Vec3 { x: (to.x - from.x) as i32, y: (to.y - from.y) as i32, z: (to.z - from.z) as i32 }
    }

    pub fn new(x: i32, y: i32, z: i32) -> (v: Vec3)
        ensures
            v == (Vec3 { x, y, z }),
    {
        Vec3 { x, y, z }
    }

    /// Tells whether the point lies on the grid.
    pub fn is_on_grid(self) -> (on: bool)
        ensures
            on == self.on_grid(),
    {
        -GRID_EDGE <= self.x && self.x <= GRID_EDGE && -GRID_EDGE <= self.y && self.y <= GRID_EDGE
            && -GRID_EDGE <= self.z && self.z <= GRID_EDGE
    }

    /// The vector that leads from `from` to `to`: the exact difference of
    /// the two points.
    pub fn between_points(from: Vec3, to: Vec3) -> (v: Vec3)
        requires
            from.on_grid(),
            to.on_grid(),
        ensures
            v == Vec3::difference(from, to),
            v.x == to.x - from.x,
            v.y == to.y - from.y,
            v.z == to.z - from.z,
    {
        Vec3 { x: to.x - from.x, y: to.y - from.y, z: to.z - from.z }
    }

    pub fn dot_product(self, other: Vec3) -> (d: i128)
        ensures
            d == self.dot(other),
    {
        proof {
            lemma_product_bound(self.x as int, other.x as int);
            lemma_product_bound(self.y as int, other.y as int);
            lemma_product_bound(self.z as int, other.z as int);
        }
        let along_x: i64 = self.x as i64 * other.x as i64;
        let along_y: i64 = self.y as i64 * other.y as i64;
        let along_z: i64 = self.z as i64 * other.z as i64;
        along_x as i128 + along_y as i128 + along_z as i128
    }

    /// The square of the Euclidean norm.
    pub fn norm_squared(self) -> (n: u64)
        ensures
            n == self.length_squared(),
    {
        let zero = Vec3 { x: 0, y: 0, z: 0 };
        let n: u128 = self.distance_squared(zero);
        proof {
            lemma_product_bound(self.x as int, self.x as int);
            lemma_product_bound(self.y as int, self.y as int);
            lemma_product_bound(self.z as int, self.z as int);
        }
        n as u64
    }

    /// The Euclidean norm, rounded down to a whole number.
    pub fn norm(self) -> (n: u32)
        ensures
            is_floor_sqrt(n as int, self.length_squared()),
    {
        floor_sqrt(self.norm_squared())
    }

    /// The square of the Euclidean distance to `other`, without rounding:
    /// two distances compare as their squares do.
    pub fn distance_squared(self, other: Vec3) -> (d: u128)
        ensures
            d == self.gap_squared(other),
    {
        squared_gap(self.x, other.x) + squared_gap(self.y, other.y) + squared_gap(self.z, other.z)
    }
}

/// A product of two coordinates stays within 62 bits.
pub proof fn lemma_product_bound(a: int, b: int)
    by (nonlinear_arith)
    requires
        i32::MIN <= a <= i32::MAX,
        i32::MIN <= b <= i32::MAX,
    ensures
        -0x4000_0000_0000_0000 <= a * b <= 0x4000_0000_0000_0000,
{
}

/// The square of a dot product is at most the product of the squared
/// norms: a cosine is at most one.
pub proof fn lemma_dot_bound(a: Vec3, b: Vec3)
    ensures
        a.dot(b) * a.dot(b) <= a.length_squared() * b.length_squared(),
{
    lemma_lagrange(a.x as int, a.y as int, a.z as int, b.x as int, b.y as int, b.z as int);
}

proof fn lemma_lagrange(a: int, b: int, c: int, x: int, y: int, z: int)
    ensures
        (a * x + b * y + c * z) * (a * x + b * y + c * z) <= (a * a + b * b + c * c) * (x * x + y
            * y + z * z),
{
    lemma_square_of_sum(a * x, b * y, c * z);
    lemma_product_of_sums(a * a, b * b, c * c, x * x, y * y, z * z);
    lemma_cross_square(a, x, b, y);
    lemma_cross_square(a, x, c, z);
    lemma_cross_square(b, y, c, z);
    lemma_pair_square(a, x);
    lemma_pair_square(b, y);
    lemma_pair_square(c, z);
}

proof fn lemma_square_of_sum(p: int, q: int, r: int)
    by (nonlinear_arith)
    ensures
        (p + q + r) * (p + q + r) == p * p + q * q + r * r + 2 * (p * q) + 2 * (p * r) + 2 * (q
            * r),
{
}

proof fn lemma_product_of_sums(a: int, b: int, c: int, x: int, y: int, z: int)
    by (nonlinear_arith)
    ensures
        (a + b + c) * (x + y + z) == a * x + a * y + a * z + b * x + b * y + b * z + c * x + c * y
            + c * z,
{
}

proof fn lemma_pair_square(a: int, x: int)
    by (nonlinear_arith)
    ensures
        (a * a) * (x * x) == (a * x) * (a * x),
{
}

/// `(ay - bx)^2 >= 0`, written out.
proof fn lemma_cross_square(a: int, x: int, b: int, y: int)
    by (nonlinear_arith)
    ensures
        (a * a) * (y * y) + (b * b) * (x * x) >= 2 * ((a * x) * (b * y)),
{
    assert((a * y - b * x) * (a * y - b * x) >= 0);
    assert((a * y - b * x) * (a * y - b * x) == (a * y) * (a * y) - 2 * ((a * y) * (b * x)) + (b
        * x) * (b * x));
    assert((a * y) * (a * y) == (a * a) * (y * y));
    assert((b * x) * (b * x) == (b * b) * (x * x));
    assert((a * y) * (b * x) == (a * x) * (b * y));
}

} // verus!
