//! A single-light, hard-shadow, diffuse ray tracer core on integer geometry.
//!
//! The points of a scene lie on a grid of whole units that reaches
//! [`vector::GRID_EDGE`] each way, so that the vector from one point to
//! another is their exact difference and distances compare without rounding.
//! A light intensity is a count of [`colors::UNIT`]-ths, the cosine rounded
//! down by less than a billionth, and a colour channel is a byte, rounded to
//! the nearest.

pub mod arith;
pub mod colors;
pub mod laws;
pub mod lights;
pub mod primitives;
pub mod renderer;
pub mod scene;
pub mod shading;
pub mod textures;
pub mod vector;

pub use crate::colors::Color;
pub use crate::lights::AnyLightObject;
pub use crate::primitives::{Ray, Shape};
pub use crate::renderer::{
    render, DrawCall, DrawCanvas, RenderError, RenderOptions, Request, Shade,
};
pub use crate::scene::{AnySceneObject, RayEmitter, Scene, SceneObject, SceneOptions};
pub use crate::textures::{Texture, TextureEffects};
pub use crate::vector::Vec3;
