//! Rays, and what a geometric shape has to answer.

use vstd::prelude::*;
use crate::vector::Vec3;

verus! {

/// A half-line: where it starts and which way it goes. The direction has
/// any length; nothing may take it for a unit vector.
#[derive(Clone, Copy, Debug, PartialEq, Eq, Structural)]
pub struct Ray {
    pub source: Vec3,
    pub direction: Vec3,
}

impl Ray {
    /// The ray that leaves `from` towards `to`, for points on the grid: its
    /// direction is the difference of the two.
    pub open spec fn from_to(from: Vec3, to: Vec3) -> Ray {
        Ray { source: from, direction: Vec3::difference(from, to) }
    }

    pub fn new(source: Vec3, direction: Vec3) -> (ray: Ray)
        ensures
            ray == (Ray { source, direction }),
    {
        Ray { source, direction }
    }

    /// The ray that leaves `from` towards `to`: its direction is the exact
    /// difference of the two points.
    pub fn ray_from_to(from: Vec3, to: Vec3) -> (ray: Ray)
        requires
            from.on_grid(),
            to.on_grid(),
        ensures
            ray == Ray::from_to(from, to),
            ray.source == from,
            ray.direction.x == to.x - from.x,
            ray.direction.y == to.y - from.y,
            ray.direction.z == to.z - from.z,
    {
        Ray { source: from, direction: Vec3::between_points(from, to) }
    }
}

/// A surface in space. Each answer is a function of the shape and the
/// question alone: the spec function names it, the method computes it.
pub trait Shape {
    /// The point where `ray` first meets the surface, if it meets it: a
    /// point on the grid.
    spec fn collision(&self, ray: Ray) -> Option<Vec3>;

    /// The normal of the surface at `point`, if it has one there.
    spec fn normal(&self, point: Vec3) -> Option<Vec3>;

    /// The surface coordinates of `point`, if it has any.
    spec fn surface_mapping(&self, point: Vec3) -> Option<(i32, i32)>;

    fn check_collision(&self, ray: &Ray) -> (point: Option<Vec3>)
        ensures
            point == self.collision(*ray),
            point matches Some(met) ==> met.on_grid(),
    ;

    fn normal_at(&self, point: Vec3) -> (normal: Option<Vec3>)
        ensures
            normal == self.normal(point),
    ;

    fn surface_mapping_at(&self, point: Vec3) -> (mapping: Option<(i32, i32)>)
        ensures
            mapping == self.surface_mapping(point),
    ;
}

} // verus!
