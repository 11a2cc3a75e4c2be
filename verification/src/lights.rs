//! Light sources.

use vstd::prelude::*;
use crate::vector::Vec3;

verus! {

/// A light that shines from one point.
pub trait AnyLightObject {
    /// Where the light is: a point on the grid.
    spec fn position(&self) -> Vec3;

    fn source(&self) -> (position: Vec3)
        ensures
            position == self.position(),
            position.on_grid(),
    ;
}

} // verus!
