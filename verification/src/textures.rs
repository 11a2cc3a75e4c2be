//! What covers a surface.

use vstd::prelude::*;
use crate::colors::Color;

verus! {

/// What a surface does with light besides scattering it. An object carries
/// its effects with it; the render pass is diffuse only and reads none of
/// them.
#[derive(Clone, Copy, Debug, PartialEq, Eq, Structural)]
pub struct TextureEffects {
    /// The share of the light that the surface mirrors, in `UNIT`-ths.
    pub mirror: Option<u32>,
    /// The share of the light that passes through the surface, in
    /// `UNIT`-ths.
    pub transparency: Option<u32>,
}

impl Default for TextureEffects {
    /// A surface that neither mirrors light nor lets it through.
    fn default() -> (effects: TextureEffects)
        ensures
            effects.mirror is None,
            effects.transparency is None,
    {
        TextureEffects { mirror: None, transparency: None }
    }
}

/// A colouring of surface coordinates.
pub trait Texture {
    /// The colour at the surface coordinates `(u, v)`.
    spec fn color(&self, u: i32, v: i32) -> Color;

    fn color_at(&self, u: i32, v: i32) -> (color: Color)
        ensures
            color == self.color(u, v),
    ;
}

} // verus!
